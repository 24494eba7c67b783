//! Segments: what to do with them, and what they tell of their stream.
use vstd::prelude::*;
use vstd::slice::slice_to_vec;
use crate::adts::{AdtsHeader, adts_bytes, adts_header, audio_kbps, channel_count, classify_aac_chunk};
use crate::adts::{law_headers_are_read_back, sampling_frequencies};
use crate::blacklist::{Blacklist, BlacklistView, FailureKind, state_of};
use crate::codec::{ClassView, Classification, StreamClassifier, classify_ts_chunk, strip_subtitle_pids, strippable};
use crate::codec::{VideoCodec, alignment, free_of, law_stripped_is_free, stripped, ts_class};
use crate::measured::{PerPlayAccumulator, PictureFacts, ProgressView, first_of, progress, smoothed};
use crate::outside::{lowercase, to_lowercase};
use crate::play::after_failure;
use crate::playlist::{RewriteCtx, SegmentToken, TokenView};
use crate::probe::codec_name;
use crate::proxy::{source_stream_id, stream_id_from_source_url};
use crate::single::{Single, kbps_single, single, single_kbps_of};
use crate::text::{before, before_char, chars_of, contains, ends_with, is_suffix, str_has};

verus! {

/// What a reply to a segment request is.
#[derive(Debug, Clone, Copy, PartialEq, Eq, Structural)]
pub enum SegmentKind {
    /// A playlist within a playlist.
    Playlist,
    /// A transport stream of which the stream id is known.
    Ts { stream_id: u64 },
    /// Audio of which the stream id is known.
    Aac { stream_id: u64 },
    Other,
}

/// A status that tells of success or of a redirection.
pub open spec fn went_well(status: u16) -> bool {
    200 <= status < 400
}

pub fn is_fine(status: u16) -> (r: bool)
    ensures
        r == went_well(status),
{
    200 <= status && status < 400
}

/// A reply brings what was asked for.
pub open spec fn succeeded(status: u16) -> bool {
    200 <= status < 300
}

pub fn is_success(status: u16) -> (r: bool)
    ensures
        r == succeeded(status),
{
    200 <= status && status < 300
}

/// The stream id in the URL of a playlist.
pub open spec fn parent_stream_id(p: Option<Seq<char>>) -> Option<u64> {
    match p {
        Some(url) => source_stream_id(url),
        None => None,
    }
}

/// What a reply is, by its content type in lower case and the path of the URL.
pub open spec fn kind_of(t: TokenView, content_type: Seq<char>) -> SegmentKind {
    let path = before(t.u, '?');
    if contains(content_type, "mpegurl"@) || contains(content_type, "m3u8"@) || ends_with(path, ".m3u8"@) {
        SegmentKind::Playlist
    } else {
        match parent_stream_id(t.p) {
            Some(stream_id) => if contains(content_type, "mp2t"@) || ends_with(path, ".ts"@) {
                SegmentKind::Ts { stream_id }
            } else if contains(content_type, "aac"@) || ends_with(path, ".aac"@) || ends_with(path, ".m4a"@) {
                SegmentKind::Aac { stream_id }
            } else {
                SegmentKind::Other
            },
            None => SegmentKind::Other,
        }
    }
}

/// What a reply is, by its content type in lower case.
pub fn kind_by_lower(segment: &SegmentToken, content_type: &str) -> (r: SegmentKind)
    ensures
        r == kind_of(segment@, content_type@),
{
    let u = chars_of(&segment.u);
    let path = before_char(&u, '?');
    if str_has(content_type, "mpegurl") || str_has(content_type, "m3u8") || is_suffix(path, ".m3u8") {
        return SegmentKind::Playlist;
    }
    let stream_id: u64 = match &segment.p {
        Some(p) => match stream_id_from_source_url(p) {
            Some(n) => n,
            None => {
                return SegmentKind::Other;
            },
        },
        None => {
            return SegmentKind::Other;
        },
    };
    if str_has(content_type, "mp2t") || is_suffix(path, ".ts") {
        SegmentKind::Ts { stream_id }
    } else if str_has(content_type, "aac") || is_suffix(path, ".aac") || is_suffix(path, ".m4a") {
        SegmentKind::Aac { stream_id }
    } else {
        SegmentKind::Other
    }
}

/// What a reply is, by its content type.
pub fn segment_kind(segment: &SegmentToken, content_type: &str) -> (r: SegmentKind)
    ensures
        r == kind_of(segment@, lowercase(content_type@)),
{
    kind_by_lower(segment, &to_lowercase(content_type))
}

/// What the links of a playlist within a playlist carry on.
pub fn nested_ctx(segment: &SegmentToken) -> (r: RewriteCtx<'_>)
    ensures
        r.channel_key@ == (match segment@.c {
            Some(c) => c,
            None => ""@,
        }),
        r.source_url@ == (match segment@.p {
            Some(p) => p,
            None => segment@.u,
        }),
        r.track_failures == !segment.probe,
        match r.upstream_host {
            Some(h) => segment@.h == Some(h@),
            None => segment@.h is None,
        },
        r.client_has_dvb_safe == segment.dvb_safe,
{
    RewriteCtx {
        channel_key: match &segment.c {
            Some(c) => c.as_str(),
            None => "",
        },
        source_url: match &segment.p {
            Some(p) => p.as_str(),
            None => segment.u.as_str(),
        },
        track_failures: !segment.probe,
        upstream_host: match &segment.h {
            Some(h) => Some(h.as_str()),
            None => None,
        },
        client_has_dvb_safe: segment.dvb_safe,
    }
}

/// What the blacklist holds after a segment failed: it and its playlist failed.
pub open spec fn after_segment_failure(b: BlacklistView, t: TokenView, at: i128) -> BlacklistView {
    let own = after_failure(b, t.u, at);
    match t.p {
        Some(p) => after_failure(own, p, at),
        None => own,
    }
}

/// Takes note of a segment that failed, unless it is a probe's.
pub fn mark_segment_failure(segment: &SegmentToken, blacklist: &mut Blacklist, at: i128)
    requires
        old(blacklist).wf(),
    ensures
        final(blacklist).wf(),
        segment.probe ==> *final(blacklist) == *old(blacklist),
        !segment.probe ==> final(blacklist).dirty && final(blacklist).config == old(blacklist).config
            && final(blacklist)@ == after_segment_failure(old(blacklist)@, segment@, at),
{
    if segment.probe {
        return;
    }
    blacklist.note_failure(&segment.u, FailureKind::ServerSide, at);
    if let Some(p) = &segment.p {
        blacklist.note_failure(p, FailureKind::ServerSide, at);
    }
}

// --- Transport streams --------------------------------------------------------------------------

/// What is known of a stream after one more segment: a picture size that was missing is looked
/// for again.
pub open spec fn class_after(known: Option<ClassView>, b: Seq<u8>) -> Option<ClassView> {
    match known {
        Some(c) => if c.width is None {
            match ts_class(b) {
                Some(n) => if n.width is Some {
                    Some(n)
                } else {
                    Some(c)
                },
                None => Some(c),
            }
        } else {
            Some(c)
        },
        None => ts_class(b),
    }
}

/// The segment as it is sent on: without the subtitles, where the client trips over them and
/// they can be taken out.
pub open spec fn sent_on(b: Seq<u8>, class: Option<ClassView>, dvb_safe: bool) -> Seq<u8> {
    match class {
        Some(c) => match c.pmt_pid {
            Some(pmt_pid) => if dvb_safe || strippable(c.subtitle_pids, c.pcr_pid).len() == 0 {
                b
            } else {
                stripped(b, pmt_pid, strippable(c.subtitle_pids, c.pcr_pid))
            },
            None => b,
        },
        None => b,
    }
}

/// What is known of a stream.
pub open spec fn class_of(m: Map<u64, ClassView>, stream_id: u64) -> Option<ClassView> {
    if m.contains_key(stream_id) {
        Some(m[stream_id])
    } else {
        None
    }
}

/// What is known of all streams after a segment of one.
pub open spec fn classes_after(m: Map<u64, ClassView>, stream_id: u64, b: Seq<u8>) -> Map<u64, ClassView> {
    match class_after(class_of(m, stream_id), b) {
        Some(c) => m.insert(stream_id, c),
        None => m,
    }
}

fn classify(classifier: &mut StreamClassifier, stream_id: u64, bytes: &[u8]) -> (r: Option<Classification>)
    ensures
        final(classifier)@ == classes_after(old(classifier)@, stream_id, bytes@),
        match r {
            Some(c) => class_after(class_of(old(classifier)@, stream_id), bytes@) == Some(c@),
            None => class_after(class_of(old(classifier)@, stream_id), bytes@) is None,
        },
{
    let ghost was = classifier@;
    match classifier.get(stream_id) {
        Some(c) => {
            if c.width.is_none() {
                if let Some(n) = classify_ts_chunk(bytes) {
                    if n.width.is_some() {
                        classifier.set(stream_id, n.clone());
                        return Some(n);
                    }
                }
            }
            proof {
                assert(was.insert(stream_id, c@) =~= was);
            }
            Some(c)
        },
        None => match classify_ts_chunk(bytes) {
            Some(n) => {
                classifier.set(stream_id, n.clone());
                Some(n)
            },
            None => None,
        },
    }
}

/// Learns from a segment, and gives back what to send on.
pub fn handle_ts_segment(classifier: &mut StreamClassifier, stream_id: u64, bytes: &[u8], dvb_safe: bool) -> (r: Vec<u8>)
    ensures
        final(classifier)@ == classes_after(old(classifier)@, stream_id, bytes@),
        r@ == sent_on(bytes@, class_after(class_of(old(classifier)@, stream_id), bytes@), dvb_safe),
{
    let c = match classify(classifier, stream_id, bytes) {
        Some(c) => c,
        None => {
            return slice_to_vec(bytes);
        },
    };
    if dvb_safe {
        return slice_to_vec(bytes);
    }
    let pids = c.strippable_subtitle_pids();
    let pmt_pid: u16 = match c.pmt_pid {
        Some(p) => p,
        None => {
            return slice_to_vec(bytes);
        },
    };
    if pids.len() == 0 {
        return slice_to_vec(bytes);
    }
    strip_subtitle_pids(bytes, pmt_pid, &pids)
}

/// A play after a segment's bit rate was taken into the average.
pub open spec fn with_rate(p: ProgressView, kbps: Single, now: u64) -> ProgressView {
    ProgressView {
        bitrate_ewma_kbps: Some(smoothed(p.bitrate_ewma_kbps, kbps)),
        last_activity: Some(now),
        ..p
    }
}

/// A play after a look at the picture: what was known stays.
pub open spec fn with_class(p: ProgressView, c: ClassView, now: u64) -> ProgressView {
    ProgressView {
        width: first_of(p.width, c.width),
        height: first_of(p.height, c.height),
        codec: first_of(p.codec, codec_name(c.video_codec)),
        pix_fmt: first_of(p.pix_fmt, c.pix_fmt),
        color_transfer: first_of(p.color_transfer, c.color_transfer),
        framerate: first_of(p.framerate, c.framerate),
        dvb_unsafe: first_of(p.dvb_unsafe, Some(c.dvb_unsafe)),
        last_activity: Some(now),
        ..p
    }
}

/// The plays under way after the bit rate of a segment was noted, where it can be told.
pub open spec fn rated(
    m: Map<(u64, Seq<char>), ProgressView>,
    t: TokenView,
    stream_id: u64,
    len: nat,
    now: u64,
) -> Map<(u64, Seq<char>), ProgressView> {
    match (t.d, t.h) {
        (Some(d), Some(h)) => if !t.probe && d.positive() && len > 0 {
            m.insert((stream_id, h), with_rate(progress(m, stream_id, h), kbps_single(len, d), now))
        } else {
            m
        },
        _ => m,
    }
}

/// The plays under way after a look at a segment's picture.
pub open spec fn pictured(
    m: Map<(u64, Seq<char>), ProgressView>,
    t: TokenView,
    stream_id: u64,
    class: Option<ClassView>,
    now: u64,
) -> Map<(u64, Seq<char>), ProgressView> {
    match (t.h, class) {
        (Some(h), Some(c)) => if !t.probe {
            m.insert((stream_id, h), with_class(progress(m, stream_id, h), c, now))
        } else {
            m
        },
        _ => m,
    }
}

fn note_rate(per_play: &mut PerPlayAccumulator, segment: &SegmentToken, stream_id: u64, len: usize, now: u64)
    requires
        old(per_play).wf(),
    ensures
        final(per_play).wf(),
        final(per_play)@ == rated(old(per_play)@, segment@, stream_id, len as nat, now),
{
    if segment.probe {
        return;
    }
    if let Some(d) = segment.d {
        if let Some(h) = &segment.h {
            if d.is_positive() && len > 0 {
                per_play.note_segment_kbps(stream_id, h, single_kbps_of(len as u64, d), now);
            }
        }
    }
}

fn note_picture(per_play: &mut PerPlayAccumulator, segment: &SegmentToken, stream_id: u64, c: &Classification, now: u64)
    requires
        old(per_play).wf(),
    ensures
        final(per_play).wf(),
        final(per_play)@ == pictured(old(per_play)@, segment@, stream_id, Some(c@), now),
{
    if segment.probe {
        return;
    }
    if let Some(h) = &segment.h {
        let facts = PictureFacts {
            width: c.width,
            height: c.height,
            codec: c.codec_string(),
            pix_fmt: c.pix_fmt.clone(),
            color_transfer: c.color_transfer.clone(),
            framerate: c.framerate,
            dvb_unsafe: Some(c.dvb_unsafe),
        };
        per_play.note_classification(stream_id, h, facts, now);
    }
}

/// Takes a segment of a transport stream: learns from it, notes what it tells of the play, and
/// gives back what to send on.
pub fn take_ts(
    classifier: &mut StreamClassifier,
    per_play: &mut PerPlayAccumulator,
    segment: &SegmentToken,
    stream_id: u64,
    bytes: &[u8],
    now: u64,
) -> (r: Vec<u8>)
    requires
        old(per_play).wf(),
    ensures
        final(per_play).wf(),
        final(classifier)@ == classes_after(old(classifier)@, stream_id, bytes@),
        r@ == sent_on(bytes@, class_after(class_of(old(classifier)@, stream_id), bytes@), segment.dvb_safe),
        final(per_play)@ == pictured(
            rated(old(per_play)@, segment@, stream_id, bytes@.len(), now),
            segment@,
            stream_id,
            class_after(class_of(old(classifier)@, stream_id), bytes@),
            now,
        ),
{
    note_rate(per_play, segment, stream_id, bytes.len(), now);
    let r = handle_ts_segment(classifier, stream_id, bytes, segment.dvb_safe);
    if let Some(c) = classifier.get(stream_id) {
        note_picture(per_play, segment, stream_id, &c, now);
    }
    r
}

// --- Audio ----------------------------------------------------------------------------------------

/// A play after a look at the sound: what was known stays.
pub open spec fn with_sound(p: ProgressView, b: Seq<u8>, now: u64) -> ProgressView {
    let h = adts_header(b)->0;
    ProgressView {
        sample_rate_hz: first_of(
            p.sample_rate_hz,
            if h.sampling_frequency_index < sampling_frequencies().len() {
                Some(sampling_frequencies()[h.sampling_frequency_index as int])
            } else {
                None
            },
        ),
        audio_channels: first_of(p.audio_channels, channel_count(h.channel_configuration)),
        last_activity: Some(now),
        ..p
    }
}

/// The plays under way after a segment of audio.
pub open spec fn heard(
    m: Map<(u64, Seq<char>), ProgressView>,
    t: TokenView,
    stream_id: u64,
    b: Seq<u8>,
    now: u64,
) -> Map<(u64, Seq<char>), ProgressView> {
    match t.h {
        Some(h) => if t.probe || adts_header(b) is None {
            m
        } else {
            let p = with_sound(progress(m, stream_id, h), b, now);
            let seconds = match t.d {
                Some(d) => d,
                None => Single { bits: 0 },
            };
            match audio_kbps(b.len(), seconds) {
                Some(k) => m.insert((stream_id, h), with_rate(p, single(k as nat, 1), now)),
                None => m.insert((stream_id, h), p),
            }
        },
        None => m,
    }
}

/// Takes a segment of audio: notes what it tells of the play.
pub fn take_aac(per_play: &mut PerPlayAccumulator, segment: &SegmentToken, stream_id: u64, bytes: &[u8], now: u64)
    requires
        old(per_play).wf(),
    ensures
        final(per_play).wf(),
        final(per_play)@ == heard(old(per_play)@, segment@, stream_id, bytes@, now),
{
    if segment.probe {
        return;
    }
    let h = match &segment.h {
        Some(h) => h,
        None => {
            return;
        },
    };
    let seconds = match segment.d {
        Some(d) => d,
        None => Single { bits: 0 },
    };
    if let Some(c) = classify_aac_chunk(bytes, seconds) {
        let ghost m = per_play@;
        let ghost p = with_sound(progress(m, stream_id, h@), bytes@, now);
        per_play.note_audio_classification(stream_id, h, c.sample_rate_hz, c.audio_channels, now);
        proof {
            assert(per_play@ == m.insert((stream_id, h@), p));
        }
        if let Some(k) = c.kbps {
            per_play.note_segment_kbps(stream_id, h, Single::of_whole(k as u64), now);
            proof {
                assert(m.insert((stream_id, h@), p).insert((stream_id, h@), with_rate(p, single(k as nat, 1), now)) =~= m.insert(
                    (stream_id, h@),
                    with_rate(p, single(k as nat, 1), now),
                ));
            }
        }
    }
}

// --- What is promised of it -------------------------------------------------------------------

/// A probe leaves no trace in what is measured.
pub proof fn law_probes_are_not_measured(
    m: Map<(u64, Seq<char>), ProgressView>,
    t: TokenView,
    stream_id: u64,
    b: Seq<u8>,
    class: Option<ClassView>,
    now: u64,
)
    requires
        t.probe,
    ensures
        pictured(rated(m, t, stream_id, b.len(), now), t, stream_id, class, now) == m,
        heard(m, t, stream_id, b, now) == m,
{
}

/// A client that copes with the subtitles gets the segment as it came.
pub proof fn law_capable_clients_get_all(b: Seq<u8>, class: Option<ClassView>)
    ensures
        sent_on(b, class, true) == b,
{
}

/// What is known of a stream's picture is not forgotten.
pub proof fn law_classes_only_grow(known: ClassView, b: Seq<u8>)
    ensures
        class_after(Some(known), b) is Some,
        known.width is Some ==> class_after(Some(known), b) == Some(known),
{
}

/// The first segment that tells of a play's picture gives it its size, codec, pixels, transfer and
/// frame rate; what later ones tell of these is not taken.
pub proof fn law_plays_learn_of_their_picture(
    m: Map<(u64, Seq<char>), ProgressView>,
    t: TokenView,
    stream_id: u64,
    h: Seq<char>,
    first: ClassView,
    second: ClassView,
    now: u64,
)
    requires
        t.h == Some(h),
        !t.probe,
        !m.contains_key((stream_id, h)),
        first.width is Some,
        first.height is Some,
    ensures
        ({
            let once = pictured(m, t, stream_id, Some(first), now);
            let twice = pictured(once, t, stream_id, Some(second), now);
            let p = once[(stream_id, h)];
            &&& once.contains_key((stream_id, h))
            &&& p.width == first.width
            &&& p.height == first.height
            &&& p.pix_fmt == first.pix_fmt
            &&& p.color_transfer == first.color_transfer
            &&& p.framerate == first.framerate
            &&& p.dvb_unsafe == Some(first.dvb_unsafe)
            &&& first.video_codec == Some(VideoCodec::H264) ==> p.codec == Some("h264"@)
            &&& first.video_codec == Some(VideoCodec::Hevc) ==> p.codec == Some("hevc"@)
            &&& p.last_activity == Some(now)
            &&& twice[(stream_id, h)].width == first.width
            &&& twice[(stream_id, h)].height == first.height
            &&& forall|k: (u64, Seq<char>)| k != (stream_id, h) && m.contains_key(k) ==> #[trigger] twice[k] == m[k]
        }),
{
}

/// The bit rate of a play is that of its first segment, and then the average with each later one.
pub proof fn law_plays_learn_of_their_bit_rate(
    m: Map<(u64, Seq<char>), ProgressView>,
    t: TokenView,
    stream_id: u64,
    h: Seq<char>,
    d: Single,
    len: nat,
    now: u64,
)
    requires
        t.h == Some(h),
        t.d == Some(d),
        !t.probe,
        d.positive(),
        len > 0,
    ensures
        !m.contains_key((stream_id, h)) ==> rated(m, t, stream_id, len, now)[(stream_id, h)].bitrate_ewma_kbps == Some(
            kbps_single(len, d),
        ),
        m.contains_key((stream_id, h)) ==> rated(m, t, stream_id, len, now)[(stream_id, h)].bitrate_ewma_kbps == Some(
            smoothed(m[(stream_id, h)].bitrate_ewma_kbps, kbps_single(len, d)),
        ),
        rated(m, t, stream_id, 0, now) == m,
{
}

/// Clients that trip over subtitles get segments without them, where these can be taken out; the
/// clock's own packets are never taken out.
pub proof fn law_subtitles_are_kept_from_those_who_trip(b: Seq<u8>, c: ClassView, pmt_pid: u16)
    requires
        c.pmt_pid == Some(pmt_pid),
        c.subtitle_pids.len() > 0,
        alignment(b) is Some,
    ensures
        (c.pcr_pid matches Some(p) ==> !c.subtitle_pids.contains(p)) ==> free_of(
            sent_on(b, Some(c), false).skip(alignment(b)->0),
            c.subtitle_pids,
        ),
        (c.pcr_pid matches Some(p) && c.subtitle_pids.contains(p)) ==> sent_on(b, Some(c), false) == b,
{
    law_stripped_is_free(b, pmt_pid, c.subtitle_pids);
}

/// A segment that failed counts against itself and against its playlist, each by one step.
pub proof fn law_failed_segments_count_twice(b: BlacklistView, t: TokenView, p: Seq<char>, at: i128)
    requires
        t.p == Some(p),
        p != t.u,
        state_of(b.urls, t.u).cool_off_step < 4,
        state_of(b.urls, p).cool_off_step < 4,
    ensures
        ({
            let after = after_segment_failure(b, t, at);
            &&& state_of(after.urls, t.u).cool_off_step == state_of(b.urls, t.u).cool_off_step + 1
            &&& state_of(after.urls, p).cool_off_step == state_of(b.urls, p).cool_off_step + 1
            &&& forall|u: Seq<char>| u != p && u != t.u ==> #[trigger] state_of(after.urls, u) == state_of(b.urls, u)
            &&& after.good == b.good
        }),
{
}

/// What comes is a playlist by its type or its name; of a stream that is known it is a transport
/// stream or AAC by the same, and else it is passed on as it is.
pub proof fn law_replies_are_told_by_type_or_name(t: TokenView, content_type: Seq<char>, stream_id: u64)
    ensures
        contains(content_type, "mpegurl"@) ==> kind_of(t, content_type) == SegmentKind::Playlist,
        ends_with(before(t.u, '?'), ".m3u8"@) ==> kind_of(t, content_type) == SegmentKind::Playlist,
        kind_of(t, content_type) == SegmentKind::Playlist || parent_stream_id(t.p) == Some(stream_id) && (contains(
            content_type,
            "mp2t"@,
        ) || ends_with(before(t.u, '?'), ".ts"@)) ==> kind_of(t, content_type) == SegmentKind::Playlist || kind_of(
            t,
            content_type,
        ) == (SegmentKind::Ts { stream_id }),
        t.p is None ==> kind_of(t, content_type) == SegmentKind::Playlist || kind_of(t, content_type) == SegmentKind::Other,
        (t.p matches Some(p) && source_stream_id(p) == Some(stream_id) && !contains(content_type, "mpegurl"@) && !contains(
            content_type,
            "m3u8"@,
        ) && !ends_with(before(t.u, '?'), ".m3u8"@) && !contains(content_type, "mp2t"@) && !ends_with(
            before(t.u, '?'),
            ".ts"@,
        ) && contains(content_type, "aac"@)) ==> kind_of(t, content_type) == (SegmentKind::Aac { stream_id }),
{
}

/// A stream of which the picture size is known keeps what is known of it, and other streams are left
/// as they are.
pub proof fn law_streams_keep_what_is_known(m: Map<u64, ClassView>, stream_id: u64, other: u64, b: Seq<u8>)
    requires
        other != stream_id,
    ensures
        m.contains_key(stream_id) && m[stream_id].width is Some ==> classes_after(m, stream_id, b) =~= m,
        m.contains_key(other) ==> classes_after(m, stream_id, b).contains_key(other) && classes_after(m, stream_id, b)[other]
            == m[other],
        !m.contains_key(stream_id) ==> (match ts_class(b) {
            Some(c) => classes_after(m, stream_id, b).contains_key(stream_id) && classes_after(m, stream_id, b)[stream_id] == c,
            None => classes_after(m, stream_id, b) == m,
        }),
        (m.contains_key(stream_id) && m[stream_id].width is None && (ts_class(b) matches Some(c) && c.width is Some))
            ==> Some(classes_after(m, stream_id, b)[stream_id]) == ts_class(b),
{
}

/// The first frame header that is heard of a play gives it its sampling rate and channels; what later
/// ones tell is not taken.
pub proof fn law_plays_learn_of_their_sound(
    p: ProgressView,
    h: AdtsHeader,
    flags: u8,
    private: bool,
    rest: u8,
    tail: u8,
    last: u8,
    more: Seq<u8>,
    now: u64,
)
    requires
        1 <= h.profile <= 4,
        h.sampling_frequency_index < 13,
        1 <= h.channel_configuration <= 6,
        h.frame_length < 8192,
        flags < 16,
        rest < 16,
        tail < 32,
    ensures
        ({
            let q = with_sound(p, adts_bytes(h, flags, private, rest, tail, last) + more, now);
            &&& p.audio_channels is None ==> q.audio_channels == Some(h.channel_configuration)
            &&& p.audio_channels is Some ==> q.audio_channels == p.audio_channels
            &&& p.sample_rate_hz is None && h.sampling_frequency_index == 3 ==> q.sample_rate_hz == Some(48000u32)
            &&& p.sample_rate_hz is None && h.sampling_frequency_index == 4 ==> q.sample_rate_hz == Some(44100u32)
            &&& p.sample_rate_hz is Some ==> q.sample_rate_hz == p.sample_rate_hz
            &&& q.last_activity == Some(now)
            &&& q.width == p.width
        }),
{
    law_headers_are_read_back(h, flags, private, rest, tail, last, more);
}

} // verus!
