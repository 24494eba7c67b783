//! What a client must be able to do to play a channel.
use std::collections::hash_map::DefaultHasher;
use std::hash::Hasher;
use vstd::prelude::*;
use vstd::bytes::{spec_u64_to_le_bytes, u64_to_le_bytes};
use vstd::std_specs::hash::DefaultHasherAdditionalSpecFns;
use vstd::utf8::encode_utf8;
use crate::blacklist::{Blacklist, host_bad};
use crate::canonical::{CanonicalChannel, ChannelView, SourceView, channel_views};
use crate::catalog::CatalogSnapshot;
use crate::clock::{elapsed_secs, seconds_since};
use crate::default_order::Curation;
use crate::measured::{MeasuredQuality, MeasuredStore, QualityView, SampleView, is_ten_bit, is_text, only_if, quality};
use crate::measured::{ten_bit, window};
use crate::order::{ascending, sort_dedup};
use crate::radio::{RadioFormat, is_radio_stream_id, radio_id};
use crate::table::{Table, TextMap, entered, law_entries_round_trip};
use crate::text::{copy_strings, has_text, hex, hex_string, owned, same_texts, texts};
use crate::xtream::ChannelKind;

verus! {

/// What a client's abilities are probed for.
#[derive(Debug, Clone, Copy, PartialEq, Eq, Structural)]
pub enum ProbeTarget {
    H264,
    Hevc,
    HevcMain10,
    Av1,
    DvbSafe,
}

/// The windows of a measured store.
pub type Windows = Map<(u64, Seq<char>), Seq<SampleView>>;

/// All targets, in the order in which they go into the version.
pub open spec fn all_targets() -> Seq<ProbeTarget> {
    seq![ProbeTarget::H264, ProbeTarget::Hevc, ProbeTarget::HevcMain10, ProbeTarget::Av1, ProbeTarget::DvbSafe]
}

/// The name of a target.
pub open spec fn target_name(t: ProbeTarget) -> Seq<char> {
    match t {
        ProbeTarget::H264 => "h264"@,
        ProbeTarget::Hevc => "hevc"@,
        ProbeTarget::HevcMain10 => "hevc_main10"@,
        ProbeTarget::Av1 => "av1"@,
        ProbeTarget::DvbSafe => "dvb_safe"@,
    }
}

impl ProbeTarget {
    pub fn all() -> (r: Vec<ProbeTarget>)
        ensures
            r@ == all_targets(),
    {
        let r = vec![
            ProbeTarget::H264,
            ProbeTarget::Hevc,
            ProbeTarget::HevcMain10,
            ProbeTarget::Av1,
            ProbeTarget::DvbSafe,
        ];
        proof {
            assert(r@ =~= all_targets());
        }
        r
    }

    pub fn endpoint_name(self) -> (r: &'static str)
        ensures
            r@ == target_name(self),
    {
        match self {
            ProbeTarget::H264 => "h264",
            ProbeTarget::Hevc => "hevc",
            ProbeTarget::HevcMain10 => "hevc_main10",
            ProbeTarget::Av1 => "av1",
            ProbeTarget::DvbSafe => "dvb_safe",
        }
    }
}

/// A measurement is of the kind that the target asks for.
pub open spec fn satisfies(q: QualityView, target: ProbeTarget) -> bool {
    match target {
        ProbeTarget::H264 => q.codec == Some("h264"@),
        ProbeTarget::Hevc => q.codec == Some("hevc"@),
        ProbeTarget::HevcMain10 => q.codec == Some("hevc"@) && ten_bit(q.pix_fmt),
        ProbeTarget::Av1 => q.codec == Some("av1"@),
        ProbeTarget::DvbSafe => q.dvb_unsafe == Some(true),
    }
}

/// What was measured of a source on a host counts: the host is alive, or it is the one that
/// listed the source. A source with a URL of its own never counts.
pub open spec fn host_counts(s: SourceView, alive: Seq<Seq<char>>, host: Seq<char>) -> bool {
    s.direct_source is None && (alive.contains(host) || (s.origin_host.len() > 0 && s.origin_host == host))
}

/// What was measured of a channel's source number `i` on a host, as far as it counts.
pub open spec fn measured_on(store: Windows, c: ChannelView, alive: Seq<Seq<char>>, i: int, host: Seq<char>) -> Option<
    QualityView,
> {
    if 0 <= i < c.sources.len() && host_counts(c.sources[i], alive, host) {
        quality(window(store, c.sources[i].stream_id, host))
    } else {
        None
    }
}

/// Something was measured of the channel.
pub open spec fn any_measured(store: Windows, c: ChannelView, alive: Seq<Seq<char>>) -> bool {
    exists|i: int, host: Seq<char>| #[trigger] measured_on(store, c, alive, i, host) is Some
}

/// All that was measured of the channel is of the kind that the target asks for.
pub open spec fn all_measured(store: Windows, c: ChannelView, alive: Seq<Seq<char>>, target: ProbeTarget) -> bool {
    forall|i: int, host: Seq<char>|
        (#[trigger] measured_on(store, c, alive, i, host)) matches Some(q) ==> satisfies(q, target)
}

/// The contents of each measurement.
pub open spec fn quality_views(v: Seq<MeasuredQuality>) -> Seq<QualityView> {
    v.map_values(|q: MeasuredQuality| q@)
}

/// The measurements all count.
spec fn sound(qs: Seq<QualityView>, store: Windows, c: ChannelView, alive: Seq<Seq<char>>) -> bool {
    forall|k: int|
        0 <= k < qs.len() ==> exists|i: int, host: Seq<char>|
            #[trigger] measured_on(store, c, alive, i, host) == Some(#[trigger] qs[k])
}

fn add_quality(
    out: &mut Vec<MeasuredQuality>,
    channel: &CanonicalChannel,
    measured: &MeasuredStore,
    alive: &[String],
    i: usize,
    host: &str,
)
    requires
        i < channel.sources@.len(),
        host_counts(channel@.sources[i as int], texts(alive@), host@),
        sound(quality_views(old(out)@), measured@, channel@, texts(alive@)),
    ensures
        sound(quality_views(final(out)@), measured@, channel@, texts(alive@)),
        forall|q: QualityView| quality_views(old(out)@).contains(q) ==> #[trigger] quality_views(final(out)@).contains(q),
        measured_on(measured@, channel@, texts(alive@), i as int, host@) matches Some(q) ==> quality_views(
            final(out)@,
        ).contains(q),
{
    let ghost was = quality_views(out@);
    proof {
        assert(channel@.sources[i as int] == channel.sources@[i as int]@);
    }
    if let Some(q) = measured.get(channel.sources[i].stream_id, host) {
        let ghost all = out@;
        out.push(q);
        proof {
            let now = quality_views(out@);
            assert(now =~= was.push(q@));
            assert(now[was.len() as int] == q@);
            assert(measured_on(measured@, channel@, texts(alive@), i as int, host@) == Some(q@));
            assert forall|k: int| 0 <= k < now.len() implies exists|i: int, host: Seq<char>|
                #[trigger] measured_on(measured@, channel@, texts(alive@), i, host) == Some(#[trigger] now[k]) by {
                if k < was.len() {
                    assert(now[k] == was[k]);
                }
            }
            assert forall|p: QualityView| was.contains(p) implies #[trigger] now.contains(p) by {
                let k = choose|k: int| 0 <= k < was.len() && was[k] == p;
                assert(now[k] == p);
            }
        }
    }
}

/// All that was measured of a channel and counts.
fn qualities(channel: &CanonicalChannel, measured: &MeasuredStore, alive: &[String]) -> (r: Vec<MeasuredQuality>)
    ensures
        sound(quality_views(r@), measured@, channel@, texts(alive@)),
        forall|i: int, host: Seq<char>|
            (#[trigger] measured_on(measured@, channel@, texts(alive@), i, host)) matches Some(q) ==> quality_views(
                r@,
            ).contains(q),
{
    let mut out: Vec<MeasuredQuality> = Vec::new();
    let ghost names = texts(alive@);
    let mut i: usize = 0;
    while i < channel.sources.len()
        invariant
            i <= channel.sources@.len(),
            names == texts(alive@),
            sound(quality_views(out@), measured@, channel@, names),
            forall|p: int, host: Seq<char>|
                0 <= p < i ==> ((#[trigger] measured_on(measured@, channel@, names, p, host)) matches Some(q)
                    ==> quality_views(out@).contains(q)),
        decreases channel.sources@.len() - i,
    {
        let src = &channel.sources[i];
        proof {
            assert(channel@.sources[i as int] == src@);
        }
        if src.direct_source.is_none() {
            let mut j: usize = 0;
            while j < alive.len()
                invariant
                    j <= alive@.len(),
                    i < channel.sources@.len(),
                    names == texts(alive@),
                    channel@.sources[i as int] == src@,
                    src@.direct_source is None,
                    sound(quality_views(out@), measured@, channel@, names),
                    forall|p: int, host: Seq<char>|
                        0 <= p < i ==> ((#[trigger] measured_on(measured@, channel@, names, p, host)) matches Some(q)
                            ==> quality_views(out@).contains(q)),
                    forall|k: int|
                        0 <= k < j ==> (measured_on(measured@, channel@, names, i as int, #[trigger] names[k]) matches Some(q)
                            ==> quality_views(out@).contains(q)),
                decreases alive@.len() - j,
            {
                proof {
                    assert(names[j as int] == alive@[j as int]@);
                    assert(names.contains(names[j as int]));
                }
                add_quality(&mut out, channel, measured, alive, i, &alive[j]);
                j = j + 1;
            }
            if !src.origin_host.as_str().is_empty() && !has_text(alive, &src.origin_host) {
                add_quality(&mut out, channel, measured, alive, i, &src.origin_host);
            }
            proof {
                assert forall|host: Seq<char>| (#[trigger] measured_on(
                    measured@,
                    channel@,
                    names,
                    i as int,
                    host,
                )) is Some implies quality_views(out@).contains(
                    measured_on(measured@, channel@, names, i as int, host)->0,
                ) by {
                    if names.contains(host) {
                        let k = choose|k: int| 0 <= k < names.len() && names[k] == host;
                        assert(names[k] == host);
                    }
                }
            }
        }
        i = i + 1;
    }
    out
}

/// Whether all measurements are of the kind that the target asks for.
fn all_satisfy(qs: &[MeasuredQuality], target: ProbeTarget) -> (r: bool)
    ensures
        r == forall|k: int| 0 <= k < qs@.len() ==> satisfies((#[trigger] qs@[k])@, target),
{
    let mut k: usize = 0;
    while k < qs.len()
        invariant
            k <= qs@.len(),
            forall|j: int| 0 <= j < k ==> satisfies((#[trigger] qs@[j])@, target),
        decreases qs@.len() - k,
    {
        let q = &qs[k];
        let ok = match target {
            ProbeTarget::H264 => is_text(&q.codec, "h264"),
            ProbeTarget::Hevc => is_text(&q.codec, "hevc"),
            ProbeTarget::HevcMain10 => is_text(&q.codec, "hevc") && is_ten_bit(&q.pix_fmt),
            ProbeTarget::Av1 => is_text(&q.codec, "av1"),
            ProbeTarget::DvbSafe => match q.dvb_unsafe {
                Some(b) => b,
                None => false,
            },
        };
        if !ok {
            proof {
                assert(!satisfies(qs@[k as int]@, target));
            }
            return false;
        }
        k = k + 1;
    }
    true
}

/// The two ways of going through what was measured agree.
proof fn lemma_all_measured(
    qs: Seq<MeasuredQuality>,
    store: Windows,
    c: ChannelView,
    alive: Seq<Seq<char>>,
    target: ProbeTarget,
)
    requires
        sound(quality_views(qs), store, c, alive),
        forall|i: int, host: Seq<char>|
            (#[trigger] measured_on(store, c, alive, i, host)) matches Some(q) ==> quality_views(qs).contains(q),
    ensures
        any_measured(store, c, alive) == (qs.len() > 0),
        all_measured(store, c, alive, target) == forall|k: int|
            0 <= k < qs.len() ==> satisfies((#[trigger] qs[k])@, target),
{
    let vs = quality_views(qs);
    if qs.len() > 0 {
        assert(vs[0] == qs[0]@);
    }
    if any_measured(store, c, alive) {
        let (i, host) = choose|i: int, host: Seq<char>| #[trigger] measured_on(store, c, alive, i, host) is Some;
        assert(vs.contains(measured_on(store, c, alive, i, host)->0));
    }
    if all_measured(store, c, alive, target) {
        assert forall|k: int| 0 <= k < qs.len() implies satisfies((#[trigger] qs[k])@, target) by {
            assert(vs[k] == qs[k]@);
            let (i, host) = choose|i: int, host: Seq<char>| #[trigger] measured_on(store, c, alive, i, host) == Some(vs[k]);
            assert(measured_on(store, c, alive, i, host) == Some(vs[k]));
        }
    }
    if forall|k: int| 0 <= k < qs.len() ==> satisfies((#[trigger] qs[k])@, target) {
        assert forall|i: int, host: Seq<char>|
            (#[trigger] measured_on(store, c, alive, i, host)) is Some implies satisfies(
            measured_on(store, c, alive, i, host)->0,
            target,
        ) by {
            let q = measured_on(store, c, alive, i, host)->0;
            let k = choose|k: int| 0 <= k < vs.len() && vs[k] == q;
            assert(qs[k]@ == q);
        }
    }
}

/// Some source of the channel is of the format.
pub open spec fn has_format(c: ChannelView, f: RadioFormat) -> bool {
    exists|i: int| 0 <= i < c.sources.len() && (#[trigger] c.sources[i]).radio_format == Some(f)
}

/// No source of the channel has a format.
pub open spec fn formatless(c: ChannelView) -> bool {
    forall|i: int| 0 <= i < c.sources.len() ==> (#[trigger] c.sources[i]).radio_format is None
}

/// What a channel asks of a client. Television starts from a fixed list, which is tightened
/// where all that was measured agrees; radio goes by the formats of its sources.
pub open spec fn channel_caps(store: Windows, c: ChannelView, alive: Seq<Seq<char>>) -> Seq<Seq<char>> {
    if c.kind == ChannelKind::Radio {
        if formatless(c) || has_format(c, RadioFormat::Hls) {
            seq!["hls"@, "aac"@, "live_audio_only_hls"@]
        } else {
            seq!["aac"@]
        }
    } else {
        let any = any_measured(store, c, alive);
        seq![
            "hls"@,
            if any && all_measured(store, c, alive, ProbeTarget::Hevc) {
                "hevc"@
            } else {
                "h264"@
            },
            "aac"@,
            "live_video_hls"@,
        ] + only_if(any && all_measured(store, c, alive, ProbeTarget::HevcMain10), "hevc_main10"@) + only_if(
            any && all_measured(store, c, alive, ProbeTarget::DvbSafe),
            "dvb_safe"@,
        )
    }
}

/// The texts of a list of names.
pub open spec fn names(v: Seq<&'static str>) -> Seq<Seq<char>> {
    Seq::new(v.len(), |i: int| v[i]@)
}

fn radio_caps_for(channel: &CanonicalChannel) -> (r: Vec<&'static str>)
    requires
        channel.kind == ChannelKind::Radio,
    ensures
        names(r@) == if formatless(channel@) || has_format(channel@, RadioFormat::Hls) {
            seq!["hls"@, "aac"@, "live_audio_only_hls"@]
        } else {
            seq!["aac"@]
        },
{
    let mut none = true;
    let mut hls = false;
    let mut i: usize = 0;
    while i < channel.sources.len()
        invariant
            i <= channel.sources@.len(),
            none == forall|j: int| 0 <= j < i ==> (#[trigger] channel@.sources[j]).radio_format is None,
            hls == exists|j: int| 0 <= j < i && (#[trigger] channel@.sources[j]).radio_format == Some(RadioFormat::Hls),
        decreases channel.sources@.len() - i,
    {
        proof {
            assert(channel@.sources[i as int] == channel.sources@[i as int]@);
        }
        match channel.sources[i].radio_format {
            Some(f) => {
                none = false;
                if f == RadioFormat::Hls {
                    hls = true;
                }
            },
            None => {},
        }
        i = i + 1;
    }
    if none || hls {
        let r = vec!["hls", "aac", "live_audio_only_hls"];
        proof {
            assert(names(r@) =~= seq!["hls"@, "aac"@, "live_audio_only_hls"@]);
        }
        r
    } else {
        let r = vec!["aac"];
        proof {
            assert(names(r@) =~= seq!["aac"@]);
        }
        r
    }
}

/// What a channel asks of a client.
pub fn caps_required(channel: &CanonicalChannel, measured: &MeasuredStore, alive_hosts: &[String]) -> (r: Vec<&'static str>)
    ensures
        names(r@) == channel_caps(measured@, channel@, texts(alive_hosts@)),
{
    if channel.kind == ChannelKind::Radio {
        return radio_caps_for(channel);
    }
    let qs = qualities(channel, measured, alive_hosts);
    proof {
        lemma_all_measured(qs@, measured@, channel@, texts(alive_hosts@), ProbeTarget::Hevc);
        lemma_all_measured(qs@, measured@, channel@, texts(alive_hosts@), ProbeTarget::HevcMain10);
        lemma_all_measured(qs@, measured@, channel@, texts(alive_hosts@), ProbeTarget::DvbSafe);
    }
    let any = qs.len() > 0;
    let video = if any && all_satisfy(&qs, ProbeTarget::Hevc) {
        "hevc"
    } else {
        "h264"
    };
    let mut caps: Vec<&'static str> = vec!["hls", video, "aac", "live_video_hls"];
    if any && all_satisfy(&qs, ProbeTarget::HevcMain10) {
        caps.push("hevc_main10");
    }
    if any && all_satisfy(&qs, ProbeTarget::DvbSafe) {
        caps.push("dvb_safe");
    }
    proof {
        assert(names(caps@) =~= channel_caps(measured@, channel@, texts(alive_hosts@)));
    }
    caps
}

/// A television channel is a fit target for a probe where something was measured of it, and
/// all of that is of the kind in question.
pub open spec fn matches_probe(store: Windows, c: ChannelView, alive: Seq<Seq<char>>, target: ProbeTarget) -> bool {
    c.kind != ChannelKind::Radio && any_measured(store, c, alive) && all_measured(store, c, alive, target)
}

pub fn channel_matches_probe(
    channel: &CanonicalChannel,
    measured: &MeasuredStore,
    alive_hosts: &[String],
    target: ProbeTarget,
) -> (r: bool)
    ensures
        r == matches_probe(measured@, channel@, texts(alive_hosts@), target),
{
    if channel.kind == ChannelKind::Radio {
        return false;
    }
    let qs = qualities(channel, measured, alive_hosts);
    proof {
        lemma_all_measured(qs@, measured@, channel@, texts(alive_hosts@), target);
    }
    qs.len() > 0 && all_satisfy(&qs, target)
}

/// The place of a channel; behind all others where it has none.
pub open spec fn place_or_last(curation: Curation, key: Seq<char>) -> usize {
    match curation.place(key) {
        Some(p) => p,
        None => usize::MAX,
    }
}

/// The first of the best-placed channels that fit the target.
pub open spec fn probe_pick(
    store: Windows,
    cs: Seq<ChannelView>,
    curation: Curation,
    alive: Seq<Seq<char>>,
    target: ProbeTarget,
) -> Option<int>
    decreases cs.len(),
{
    if cs.len() == 0 {
        None
    } else {
        let before = probe_pick(store, cs.drop_last(), curation, alive, target);
        if !matches_probe(store, cs.last(), alive, target) {
            before
        } else {
            match before {
                Some(b) => if place_or_last(curation, cs.last().key) < place_or_last(curation, cs[b].key) {
                    Some(cs.len() - 1)
                } else {
                    Some(b)
                },
                None => Some(cs.len() - 1),
            }
        }
    }
}

/// The position of the channel to probe with.
fn pick_probe_index(
    snap: &CatalogSnapshot,
    curation: &Curation,
    measured: &MeasuredStore,
    alive_hosts: &[String],
    target: ProbeTarget,
) -> (r: Option<usize>)
    ensures
        match r {
            Some(i) => i < snap.channels@.len() && probe_pick(
                measured@,
                channel_views(snap.channels@),
                *curation,
                texts(alive_hosts@),
                target,
            ) == Some(i as int),
            None => probe_pick(measured@, channel_views(snap.channels@), *curation, texts(alive_hosts@), target) is None,
        },
{
    let ghost views = channel_views(snap.channels@);
    let mut best: Option<usize> = None;
    let mut i: usize = 0;
    while i < snap.channels.len()
        invariant
            i <= snap.channels@.len(),
            views == channel_views(snap.channels@),
            match best {
                Some(b) => b < i && probe_pick(measured@, views.take(i as int), *curation, texts(alive_hosts@), target) == Some(
                    b as int,
                ),
                None => probe_pick(measured@, views.take(i as int), *curation, texts(alive_hosts@), target) is None,
            },
        decreases snap.channels@.len() - i,
    {
        let c = &snap.channels[i];
        proof {
            assert(views.take(i + 1).drop_last() =~= views.take(i as int));
            assert(views.take(i + 1).last() == c@);
        }
        if channel_matches_probe(c, measured, alive_hosts, target) {
            match best {
                Some(b) => {
                    proof {
                        assert(views.take(i + 1)[b as int] == snap.channels@[b as int]@);
                    }
                    if curation.rank_of(&c.key).unwrap_or(usize::MAX) < curation.rank_of(&snap.channels[b].key).unwrap_or(
                        usize::MAX,
                    ) {
                        best = Some(i);
                    }
                },
                None => {
                    best = Some(i);
                },
            }
        }
        i = i + 1;
    }
    proof {
        assert(views.take(i as int) =~= views);
    }
    best
}

/// The first of the best-placed channels that fit the target.
pub fn pick_probe_channel<'a>(
    snap: &'a CatalogSnapshot,
    curation: &Curation,
    measured: &MeasuredStore,
    alive_hosts: &[String],
    target: ProbeTarget,
) -> (r: Option<&'a CanonicalChannel>)
    ensures
        match r {
            Some(c) => probe_pick(measured@, channel_views(snap.channels@), *curation, texts(alive_hosts@), target) matches Some(
                i,
            ) && 0 <= i < snap.channels@.len() && snap.channels@[i] == *c,
            None => probe_pick(measured@, channel_views(snap.channels@), *curation, texts(alive_hosts@), target) is None,
        },
{
    match pick_probe_index(snap, curation, measured, alive_hosts, target) {
        Some(i) => Some(&snap.channels[i]),
        None => None,
    }
}

/// The key of the channel to probe with; empty where there is none.
pub open spec fn picked_key(
    store: Windows,
    cs: Seq<ChannelView>,
    curation: Curation,
    alive: Seq<Seq<char>>,
    target: ProbeTarget,
) -> Seq<char> {
    match probe_pick(store, cs, curation, alive, target) {
        Some(i) => cs[i].key,
        None => Seq::empty(),
    }
}

/// What a target adds to the version: its name and the key of its channel, each ended by a
/// byte that no text holds.
pub open spec fn version_part(
    store: Windows,
    cs: Seq<ChannelView>,
    curation: Curation,
    alive: Seq<Seq<char>>,
    target: ProbeTarget,
) -> Seq<Seq<u8>> {
    seq![
        encode_utf8(target_name(target)),
        seq![0xffu8],
        encode_utf8(picked_key(store, cs, curation, alive, target)),
        seq![0xffu8],
    ]
}

/// What goes into the version for the first `n` targets.
pub open spec fn version_parts(
    store: Windows,
    cs: Seq<ChannelView>,
    curation: Curation,
    alive: Seq<Seq<char>>,
    n: nat,
) -> Seq<Seq<u8>>
    decreases n,
{
    if n == 0 {
        seq![spec_u64_to_le_bytes(cs.len() as u64)]
    } else {
        version_parts(store, cs, curation, alive, (n - 1) as nat) + version_part(
            store,
            cs,
            curation,
            alive,
            all_targets()[n - 1],
        )
    }
}

/// A digest of how many channels there are and which of them the targets are probed with.
pub open spec fn version_of(store: Windows, cs: Seq<ChannelView>, curation: Curation, alive: Seq<Seq<char>>) -> Seq<char> {
    hex(DefaultHasher::spec_finish(version_parts(store, cs, curation, alive, 5)) as nat, 16)
}

pub fn compute_version(snap: &CatalogSnapshot, measured: &MeasuredStore, alive_hosts: &[String], curation: &Curation) -> (r:
    String)
    ensures
        r@ == version_of(measured@, channel_views(snap.channels@), *curation, texts(alive_hosts@)),
{
    let ghost views = channel_views(snap.channels@);
    let ghost alive = texts(alive_hosts@);
    let end: [u8; 1] = [0xff];
    let count = u64_to_le_bytes(snap.channels.len() as u64);
    let mut h = DefaultHasher::new();
    h.write(&count);
    let targets = ProbeTarget::all();
    proof {
        assert(h@ =~= version_parts(measured@, views, *curation, alive, 0));
    }
    let mut i: usize = 0;
    while i < targets.len()
        invariant
            i <= 5,
            targets@ == all_targets(),
            end@ == seq![0xffu8],
            views == channel_views(snap.channels@),
            alive == texts(alive_hosts@),
            h@ == version_parts(measured@, views, *curation, alive, i as nat),
        decreases 5 - i,
    {
        let target = targets[i];
        let ghost was = h@;
        let key = match pick_probe_index(snap, curation, measured, alive_hosts, target) {
            Some(k) => snap.channels[k].key.clone(),
            None => String::new(),
        };
        let name = target.endpoint_name();
        h.write(name.as_bytes());
        h.write(&end);
        h.write(key.as_str().as_bytes());
        h.write(&end);
        proof {
            assert(key@ =~= picked_key(measured@, views, *curation, alive, target));
            assert(h@ =~= was + version_part(measured@, views, *curation, alive, target));
        }
        i = i + 1;
    }
    hex_string(h.finish(), 16)
}

// --- The cache -----------------------------------------------------------------------------

/// What channels ask for, as last worked out, and from what.
pub struct CapsRequiredCache {
    pub per_channel: TextMap<Vec<&'static str>>,
    pub version: String,
    pub catalog_refreshed_at: Option<i128>,
    pub measured_generation: u64,
    /// None where nothing was worked out yet.
    pub alive_hosts: Option<Vec<String>>,
}

/// What the cache hands out.
pub struct CapsSnapshot {
    pub per_channel: TextMap<Vec<&'static str>>,
    pub version: String,
}

/// What a table of lists of names holds.
pub open spec fn caps_map(t: TextMap<Vec<&'static str>>) -> Map<Seq<char>, Seq<Seq<char>>> {
    t@.map_values(|v: Vec<&'static str>| names(v@))
}

/// What each channel asks for, by key; of two with one key the later.
pub open spec fn caps_by_key(store: Windows, cs: Seq<ChannelView>, alive: Seq<Seq<char>>) -> Map<Seq<char>, Seq<Seq<char>>>
    decreases cs.len(),
{
    if cs.len() == 0 {
        Map::empty()
    } else {
        caps_by_key(store, cs.drop_last(), alive).insert(cs.last().key, channel_caps(store, cs.last(), alive))
    }
}

fn copy_names(v: &Vec<&'static str>) -> (r: Vec<&'static str>)
    ensures
        names(r@) == names(v@),
{
    let mut out: Vec<&'static str> = Vec::new();
    let mut i: usize = 0;
    while i < v.len()
        invariant
            i <= v@.len(),
            out@ == v@.take(i as int),
        decreases v@.len() - i,
    {
        out.push(v[i]);
        proof {
            assert(out@ =~= v@.take(i + 1));
        }
        i = i + 1;
    }
    proof {
        assert(out@ =~= v@);
    }
    out
}

fn copy_caps(t: &TextMap<Vec<&'static str>>) -> (r: TextMap<Vec<&'static str>>)
    requires
        t.wf(),
    ensures
        r.wf(),
        caps_map(r) == caps_map(*t),
{
    let ghost s = t.entries@;
    let mut out: TextMap<Vec<&'static str>> = Table::new();
    let mut i: usize = 0;
    proof {
        assert(caps_map(out) =~= Map::<Seq<char>, Seq<Seq<char>>>::empty());
        assert(entered(s.take(0)).map_values(|v: Vec<&'static str>| names(v@)) =~= Map::<
            Seq<char>,
            Seq<Seq<char>>,
        >::empty());
    }
    while i < t.entries.len()
        invariant
            i <= s.len(),
            s == t.entries@,
            out.wf(),
            caps_map(out) == entered(s.take(i as int)).map_values(|v: Vec<&'static str>| names(v@)),
        decreases s.len() - i,
    {
        let (k, v) = &t.entries[i];
        let ghost was = caps_map(out);
        proof {
            assert(s.take(i + 1).drop_last() =~= s.take(i as int));
            assert(s.take(i + 1).last() == s[i as int]);
        }
        let copy = copy_names(v);
        out.insert(k.clone(), copy);
        proof {
            assert(caps_map(out) =~= was.insert(k@, names(copy@)));
            assert(caps_map(out) =~= entered(s.take(i + 1)).map_values(|v: Vec<&'static str>| names(v@)));
        }
        i = i + 1;
    }
    proof {
        assert(s.take(i as int) =~= s);
        law_entries_round_trip(*t);
    }
    out
}

impl CapsRequiredCache {
    pub open spec fn wf(&self) -> bool {
        self.per_channel.wf()
    }

    /// What is held was worked out from the same catalog, measurements and hosts.
    pub open spec fn is_current(&self, snap: CatalogSnapshot, generation: u64, alive: Seq<Seq<char>>) -> bool {
        &&& self.catalog_refreshed_at == snap.last_refreshed
        &&& self.measured_generation == generation
        &&& self.alive_hosts matches Some(hosts) && texts(hosts@) == alive
    }

    pub fn new() -> (r: Self)
        ensures
            r.wf(),
            r.alive_hosts is None,
            r.catalog_refreshed_at is None,
            r.measured_generation == 0,
            caps_map(r.per_channel) == Map::<Seq<char>, Seq<Seq<char>>>::empty(),
    {
        let r = CapsRequiredCache {
            per_channel: Table::new(),
            version: String::new(),
            catalog_refreshed_at: None,
            measured_generation: 0,
            alive_hosts: None,
        };
        proof {
            assert(caps_map(r.per_channel) =~= Map::<Seq<char>, Seq<Seq<char>>>::empty());
        }
        r
    }

    /// What channels ask for: as held where nothing moved, and else worked out anew.
    pub fn ensure(
        &mut self,
        snap: &CatalogSnapshot,
        measured: &MeasuredStore,
        alive_hosts: &[String],
        tv_curation: &Curation,
    ) -> (r: CapsSnapshot)
        requires
            old(self).wf(),
        ensures
            final(self).wf(),
            r.per_channel.wf(),
            caps_map(r.per_channel) == caps_map(final(self).per_channel),
            r.version@ == final(self).version@,
            final(self).is_current(*snap, measured.generation, texts(alive_hosts@)),
            old(self).is_current(*snap, measured.generation, texts(alive_hosts@)) ==> *final(self) == *old(self),
            !old(self).is_current(*snap, measured.generation, texts(alive_hosts@)) ==> caps_map(final(self).per_channel)
                == caps_by_key(measured@, channel_views(snap.channels@), texts(alive_hosts@)) && final(self).version@
                == version_of(measured@, channel_views(snap.channels@), *tv_curation, texts(alive_hosts@)),
    {
        let same_catalog = match (self.catalog_refreshed_at, snap.last_refreshed) {
            (Some(a), Some(b)) => a == b,
            (None, None) => true,
            _ => false,
        };
        let same_hosts = match &self.alive_hosts {
            Some(hosts) => same_texts(hosts, alive_hosts),
            None => false,
        };
        if same_catalog && same_hosts && self.measured_generation == measured.generation() {
            return CapsSnapshot { per_channel: copy_caps(&self.per_channel), version: self.version.clone() };
        }
        let ghost views = channel_views(snap.channels@);
        let mut per_channel: TextMap<Vec<&'static str>> = Table::new();
        let mut i: usize = 0;
        proof {
            assert(caps_map(per_channel) =~= caps_by_key(measured@, views.take(0), texts(alive_hosts@)));
        }
        while i < snap.channels.len()
            invariant
                i <= snap.channels@.len(),
                views == channel_views(snap.channels@),
                per_channel.wf(),
                caps_map(per_channel) == caps_by_key(measured@, views.take(i as int), texts(alive_hosts@)),
            decreases snap.channels@.len() - i,
        {
            let c = &snap.channels[i];
            let ghost was = caps_map(per_channel);
            proof {
                assert(views.take(i + 1).drop_last() =~= views.take(i as int));
                assert(views.take(i + 1).last() == c@);
            }
            let caps = caps_required(c, measured, alive_hosts);
            per_channel.insert(c.key.clone(), caps);
            proof {
                assert(caps_map(per_channel) =~= was.insert(c.key@, names(caps@)));
            }
            i = i + 1;
        }
        proof {
            assert(views.take(i as int) =~= views);
        }
        self.version = compute_version(snap, measured, alive_hosts, tv_curation);
        self.catalog_refreshed_at = snap.last_refreshed;
        self.measured_generation = measured.generation();
        self.alive_hosts = Some(copy_strings(alive_hosts));
        self.per_channel = per_channel;
        CapsSnapshot { per_channel: copy_caps(&self.per_channel), version: self.version.clone() }
    }
}

impl Default for CapsRequiredCache {
    fn default() -> (r: Self)
        ensures
            r.wf(),
            r.alive_hosts is None,
    {
        CapsRequiredCache::new()
    }
}

// --- What variants ask for ----------------------------------------------------------------------

/// The latest measurement is too old.
pub open spec fn stale(w: Seq<SampleView>, stale_secs: u64, now: i128) -> bool {
    w.len() > 0 && elapsed_secs(now as int, w.last().at) >= stale_secs
}

/// What is known of the world in which variants are chosen.
pub struct Scope<'a> {
    pub measured: &'a MeasuredStore,
    pub blacklist: &'a Blacklist,
    pub alive: &'a [String],
    pub stale_secs: u64,
    pub now: i128,
}

impl<'a> Scope<'a> {
    pub open spec fn wf(self) -> bool {
        self.blacklist.wf()
    }

    /// The host is alive and not bad, and what was measured of the stream on it is not too
    /// old.
    pub open spec fn eligible(self, host: Seq<char>, stream_id: u64) -> bool {
        &&& texts(self.alive@).contains(host)
        &&& !host_bad(self.blacklist@.hosts, self.blacklist.config, host, self.now)
        &&& !stale(window(self.measured@, stream_id, host), self.stale_secs, self.now)
    }

    /// Some host can serve the stream.
    pub open spec fn served(self, stream_id: u64) -> bool {
        exists|host: Seq<char>| #[trigger] self.eligible(host, stream_id)
    }

    /// What was measured of the stream on a host that can serve it asks for the capability.
    pub open spec fn asks_on(self, stream_id: u64, host: Seq<char>, cap: Seq<char>) -> bool {
        self.eligible(host, stream_id) && (quality(window(self.measured@, stream_id, host)) matches Some(q)
            && q.caps_required.contains(cap))
    }

    /// Something was measured of the stream on a host that can serve it.
    pub open spec fn known(self, stream_id: u64) -> bool {
        exists|host: Seq<char>| #[trigger]
            self.eligible(host, stream_id) && quality(window(self.measured@, stream_id, host)) is Some
    }

    /// The stream asks for the capability: some measurement does, or nothing was measured and
    /// the capability is one that all streams of the kind ask for.
    pub open spec fn asks(self, stream_id: u64, cap: Seq<char>) -> bool {
        if self.known(stream_id) {
            exists|host: Seq<char>| #[trigger] self.asks_on(stream_id, host, cap)
        } else {
            baseline(stream_id).contains(cap)
        }
    }
}

/// What all streams of a kind ask for.
pub open spec fn baseline(stream_id: u64) -> Seq<Seq<char>> {
    if radio_id(stream_id) {
        seq!["hls"@, "live_audio_only_hls"@]
    } else {
        seq!["hls"@, "h264"@, "aac"@, "live_video_hls"@]
    }
}

/// Whether a host can serve a stream.
pub fn host_eligible_v2(scope: &Scope<'_>, host: &str, stream_id: u64) -> (r: bool)
    requires
        scope.wf(),
    ensures
        r == scope.eligible(host@, stream_id),
{
    if !has_text(scope.alive, host) || scope.blacklist.is_host_bad(host, scope.now) {
        return false;
    }
    match scope.measured.most_recent_at(stream_id, host) {
        Some(at) => seconds_since(scope.now, at) < scope.stale_secs,
        None => true,
    }
}

fn baseline_list(stream_id: u64) -> (r: Vec<String>)
    ensures
        texts(r@) == baseline(stream_id),
{
    let r = if is_radio_stream_id(stream_id) {
        vec![owned("hls"), owned("live_audio_only_hls")]
    } else {
        vec![owned("hls"), owned("h264"), owned("aac"), owned("live_video_hls")]
    };
    proof {
        assert(texts(r@) =~= baseline(stream_id));
    }
    r
}

/// Adds texts to a list.
fn add_texts(out: &mut Vec<String>, more: &[String])
    ensures
        forall|t: Seq<char>| #[trigger] texts(final(out)@).contains(t) == (texts(old(out)@).contains(t) || texts(more@).contains(t)),
{
    let ghost was = texts(out@);
    let mut i: usize = 0;
    while i < more.len()
        invariant
            i <= more@.len(),
            texts(out@) == was + texts(more@).take(i as int),
        decreases more@.len() - i,
    {
        let ghost before = texts(out@);
        out.push(more[i].clone());
        proof {
            assert(texts(out@) =~= before.push(more@[i as int]@));
            assert(texts(out@) =~= was + texts(more@).take(i + 1));
        }
        i = i + 1;
    }
    proof {
        let now = texts(out@);
        assert(now =~= was + texts(more@));
        assert forall|t: Seq<char>| #[trigger] now.contains(t) == (was.contains(t) || texts(more@).contains(t)) by {
            if was.contains(t) {
                let k = choose|k: int| 0 <= k < was.len() && was[k] == t;
                assert(now[k] == t);
            }
            if texts(more@).contains(t) {
                let k = choose|k: int| 0 <= k < texts(more@).len() && texts(more@)[k] == t;
                assert(now[was.len() + k] == t);
            }
            if now.contains(t) && !was.contains(t) {
                let k = choose|k: int| 0 <= k < now.len() && now[k] == t;
                if k < was.len() {
                    assert(was[k] == t);
                }
                assert(texts(more@)[k - was.len()] == t);
            }
        }
    }
}

/// What a stream asks for, in alphabetical order; none where no host can serve it.
pub fn variant_caps_required(scope: &Scope<'_>, stream_id: u64) -> (r: Option<Vec<String>>)
    requires
        scope.wf(),
    ensures
        r is Some <==> scope.served(stream_id),
        r matches Some(caps) ==> ascending(texts(caps@)) && forall|t: Seq<char>| #[trigger]
            texts(caps@).contains(t) == scope.asks(stream_id, t),
{
    let mut caps: Vec<String> = Vec::new();
    let mut served = false;
    let mut known = false;
    let ghost names = texts(scope.alive@);
    let mut i: usize = 0;
    while i < scope.alive.len()
        invariant
            i <= scope.alive@.len(),
            scope.wf(),
            names == texts(scope.alive@),
            served == exists|j: int| 0 <= j < i && scope.eligible(#[trigger] names[j], stream_id),
            known == exists|j: int|
                0 <= j < i && scope.eligible(#[trigger] names[j], stream_id) && quality(
                    window(scope.measured@, stream_id, names[j]),
                ) is Some,
            forall|t: Seq<char>| #[trigger]
                texts(caps@).contains(t) == exists|j: int| 0 <= j < i && scope.asks_on(stream_id, #[trigger] names[j], t),
        decreases scope.alive@.len() - i,
    {
        let host = &scope.alive[i];
        let ghost was = texts(caps@);
        let ghost served_before = served;
        let ghost known_before = known;
        proof {
            assert(names[i as int] == host@);
        }
        if host_eligible_v2(scope, host, stream_id) {
            served = true;
            if let Some(q) = scope.measured.get(stream_id, host) {
                known = true;
                add_texts(&mut caps, &q.caps_required);
                proof {
                    assert forall|t: Seq<char>| #[trigger] texts(caps@).contains(t) == exists|j: int|
                        0 <= j < i + 1 && scope.asks_on(stream_id, #[trigger] names[j], t) by {
                        assert(scope.asks_on(stream_id, names[i as int], t) == texts(q.caps_required@).contains(t));
                        assert(texts(caps@).contains(t) == (was.contains(t) || texts(q.caps_required@).contains(t)));
                        if was.contains(t) {
                            let j = choose|j: int| 0 <= j < i && scope.asks_on(stream_id, #[trigger] names[j], t);
                            assert(0 <= j < i + 1);
                        }
                    }
                }
            } else {
                proof {
                    assert forall|t: Seq<char>| #[trigger] texts(caps@).contains(t) == exists|j: int|
                        0 <= j < i + 1 && scope.asks_on(stream_id, #[trigger] names[j], t) by {
                        assert(!scope.asks_on(stream_id, names[i as int], t));
                        assert(was.contains(t) == exists|j: int| 0 <= j < i && scope.asks_on(stream_id, #[trigger] names[j], t));
                    }
                }
            }
        } else {
            proof {
                assert forall|t: Seq<char>| #[trigger] texts(caps@).contains(t) == exists|j: int|
                    0 <= j < i + 1 && scope.asks_on(stream_id, #[trigger] names[j], t) by {
                    assert(!scope.asks_on(stream_id, names[i as int], t));
                    assert(was.contains(t) == exists|j: int| 0 <= j < i && scope.asks_on(stream_id, #[trigger] names[j], t));
                }
            }
        }
        proof {
            if served_before {
                let j = choose|j: int| 0 <= j < i && scope.eligible(#[trigger] names[j], stream_id);
                assert(0 <= j < i + 1);
            }
            if known_before {
                let j = choose|j: int|
                    0 <= j < i && scope.eligible(#[trigger] names[j], stream_id) && quality(
                        window(scope.measured@, stream_id, names[j]),
                    ) is Some;
                assert(0 <= j < i + 1);
            }
        }
        i = i + 1;
    }
    proof {
        assert forall|host: Seq<char>| #[trigger] scope.eligible(host, stream_id) implies exists|j: int|
            0 <= j < names.len() && #[trigger] names[j] == host by {
            let j = choose|j: int| 0 <= j < names.len() && names[j] == host;
            assert(names[j] == host);
        }
        assert(served == scope.served(stream_id)) by {
            if scope.served(stream_id) {
                let host = choose|host: Seq<char>| #[trigger] scope.eligible(host, stream_id);
                let j = choose|j: int| 0 <= j < names.len() && #[trigger] names[j] == host;
                assert(scope.eligible(names[j], stream_id));
            }
        }
        assert(known == scope.known(stream_id)) by {
            if scope.known(stream_id) {
                let host = choose|host: Seq<char>| #[trigger]
                    scope.eligible(host, stream_id) && quality(window(scope.measured@, stream_id, host)) is Some;
                let j = choose|j: int| 0 <= j < names.len() && #[trigger] names[j] == host;
                assert(scope.eligible(names[j], stream_id));
            }
        }
        assert forall|t: Seq<char>| #[trigger] texts(caps@).contains(t) == exists|host: Seq<char>| #[trigger]
            scope.asks_on(stream_id, host, t) by {
            if exists|host: Seq<char>| #[trigger] scope.asks_on(stream_id, host, t) {
                let host = choose|host: Seq<char>| #[trigger] scope.asks_on(stream_id, host, t);
                assert(scope.eligible(host, stream_id));
                let j = choose|j: int| 0 <= j < names.len() && #[trigger] names[j] == host;
                assert(scope.asks_on(stream_id, names[j], t));
            }
        }
    }
    if !served {
        return None;
    }
    if known {
        Some(sort_dedup(caps))
    } else {
        Some(sort_dedup(baseline_list(stream_id)))
    }
}

/// A television variant of the channels that some host can serve asks for the capability.
pub open spec fn asked_for(scope: Scope, cs: Seq<ChannelView>, n: int, cap: Seq<char>) -> bool {
    exists|i: int, j: int| #[trigger] asks_at(scope, cs, i, j, cap) && i < n
}

/// Source number `j` of channel number `i` can be served and asks for the capability.
pub open spec fn asks_at(scope: Scope, cs: Seq<ChannelView>, i: int, j: int, cap: Seq<char>) -> bool {
    &&& 0 <= i < cs.len()
    &&& cs[i].kind != ChannelKind::Radio
    &&& 0 <= j < cs[i].sources.len()
    &&& cs[i].sources[j].direct_source is None
    &&& scope.served(cs[i].sources[j].stream_id)
    &&& scope.asks(cs[i].sources[j].stream_id, cap)
}

/// All capabilities that some television variant asks for, in alphabetical order.
pub fn probes_expected(scope: &Scope<'_>, snap: &CatalogSnapshot) -> (r: Vec<String>)
    requires
        scope.wf(),
    ensures
        ascending(texts(r@)),
        forall|t: Seq<char>| #[trigger]
            texts(r@).contains(t) == asked_for(*scope, channel_views(snap.channels@), snap.channels@.len() as int, t),
{
    let ghost views = channel_views(snap.channels@);
    let mut all: Vec<String> = Vec::new();
    let mut i: usize = 0;
    proof {
        assert(texts(all@).len() == 0);
    }
    while i < snap.channels.len()
        invariant
            i <= snap.channels@.len(),
            scope.wf(),
            views == channel_views(snap.channels@),
            forall|t: Seq<char>| #[trigger] texts(all@).contains(t) == asked_for(*scope, views, i as int, t),
        decreases snap.channels@.len() - i,
    {
        let ch = &snap.channels[i];
        let ghost start = texts(all@);
        proof {
            assert(views[i as int] == ch@);
        }
        let mut j: usize = 0;
        while j < ch.sources.len() && ch.kind != ChannelKind::Radio
            invariant
                i < snap.channels@.len(),
                scope.wf(),
                views == channel_views(snap.channels@),
                views[i as int] == ch@,
                j <= ch.sources@.len(),
                forall|t: Seq<char>| #[trigger]
                    texts(all@).contains(t) == (start.contains(t) || exists|k: int|
                        0 <= k < j && #[trigger] asks_at(*scope, views, i as int, k, t)),
            decreases ch.sources@.len() - j,
        {
            let s = &ch.sources[j];
            let ghost was = texts(all@);
            proof {
                assert(ch@.sources[j as int] == s@);
            }
            if s.direct_source.is_none() {
                if let Some(caps) = variant_caps_required(scope, s.stream_id) {
                    add_texts(&mut all, &caps);
                    proof {
                        assert forall|t: Seq<char>| #[trigger] texts(all@).contains(t) == (was.contains(t) || asks_at(
                            *scope,
                            views,
                            i as int,
                            j as int,
                            t,
                        )) by {
                            assert(texts(caps@).contains(t) == scope.asks(s.stream_id, t));
                        }
                    }
                }
            }
            proof {
                assert forall|t: Seq<char>| #[trigger] texts(all@).contains(t) == (start.contains(t) || exists|k: int|
                    0 <= k < j + 1 && #[trigger] asks_at(*scope, views, i as int, k, t)) by {
                    assert(texts(all@).contains(t) == (was.contains(t) || asks_at(*scope, views, i as int, j as int, t)));
                    if was.contains(t) && !start.contains(t) {
                        let k = choose|k: int| 0 <= k < j && #[trigger] asks_at(*scope, views, i as int, k, t);
                        assert(0 <= k < j + 1);
                    }
                }
            }
            j = j + 1;
        }
        proof {
            assert forall|t: Seq<char>| #[trigger] texts(all@).contains(t) == asked_for(*scope, views, i + 1, t) by {
                assert(start.contains(t) == asked_for(*scope, views, i as int, t));
                if asked_for(*scope, views, i + 1, t) {
                    let (a, k) = choose|a: int, k: int| #[trigger] asks_at(*scope, views, a, k, t) && a < i + 1;
                    if a < i {
                        assert(asks_at(*scope, views, a, k, t) && a < i);
                    } else {
                        assert(asks_at(*scope, views, i as int, k, t));
                        assert(ch.kind != ChannelKind::Radio);
                        assert(0 <= k < ch.sources@.len());
                    }
                }
                if start.contains(t) {
                    let (a, k) = choose|a: int, k: int| #[trigger] asks_at(*scope, views, a, k, t) && a < i;
                    assert(asks_at(*scope, views, a, k, t) && a < i + 1);
                }
            }
        }
        i = i + 1;
    }
    sort_dedup(all)
}

/// The first source of a channel, from number `j` on, that asks for the capability.
pub open spec fn source_asking(scope: Scope, cs: Seq<ChannelView>, i: int, j: int, cap: Seq<char>) -> Option<int>
    decreases cs[i].sources.len() - j,
{
    if j < 0 || j >= cs[i].sources.len() {
        None
    } else if asks_at(scope, cs, i, j, cap) {
        Some(j)
    } else {
        source_asking(scope, cs, i, j + 1, cap)
    }
}

/// The first of the best-placed channels of the first `n` that have a variant that asks for the
/// capability, and the variant.
pub open spec fn variant_pick(scope: Scope, cs: Seq<ChannelView>, curation: Curation, n: int, cap: Seq<char>) -> Option<
    (int, int),
>
    decreases n,
{
    if n <= 0 {
        None
    } else {
        let before = variant_pick(scope, cs, curation, n - 1, cap);
        match source_asking(scope, cs, n - 1, 0, cap) {
            Some(j) => match before {
                Some(b) => if place_or_last(curation, cs[n - 1].key) < place_or_last(curation, cs[b.0].key) {
                    Some((n - 1, j))
                } else {
                    before
                },
                None => Some((n - 1, j)),
            },
            None => before,
        }
    }
}

/// The number of the first source of a channel that asks for the capability.
fn find_asking(scope: &Scope<'_>, snap: &CatalogSnapshot, i: usize, cap: &str) -> (r: Option<usize>)
    requires
        scope.wf(),
        i < snap.channels@.len(),
    ensures
        match r {
            Some(j) => source_asking(*scope, channel_views(snap.channels@), i as int, 0, cap@) == Some(j as int) && j
                < snap.channels@[i as int].sources@.len(),
            None => source_asking(*scope, channel_views(snap.channels@), i as int, 0, cap@) is None,
        },
{
    let ghost views = channel_views(snap.channels@);
    let ch = &snap.channels[i];
    proof {
        assert(views[i as int] == ch@);
    }
    let mut j: usize = 0;
    while j < ch.sources.len()
        invariant
            scope.wf(),
            i < snap.channels@.len(),
            views == channel_views(snap.channels@),
            views[i as int] == ch@,
            *ch == snap.channels@[i as int],
            j <= ch.sources@.len(),
            source_asking(*scope, views, i as int, 0, cap@) == source_asking(*scope, views, i as int, j as int, cap@),
        decreases ch.sources@.len() - j,
    {
        let s = &ch.sources[j];
        proof {
            assert(ch@.sources[j as int] == s@);
        }
        if ch.kind != ChannelKind::Radio && s.direct_source.is_none() {
            if let Some(caps) = variant_caps_required(scope, s.stream_id) {
                proof {
                    assert(texts(caps@).contains(cap@) == scope.asks(s.stream_id, cap@));
                }
                if has_text(&caps, cap) {
                    return Some(j);
                }
            }
        }
        j = j + 1;
    }
    None
}

/// The channel and the stream to probe a capability with.
pub fn pick_probe_variant(scope: &Scope<'_>, snap: &CatalogSnapshot, curation: &Curation, cap: &str) -> (r: Option<
    (String, u64),
>)
    requires
        scope.wf(),
    ensures
        match r {
            Some(p) => variant_pick(*scope, channel_views(snap.channels@), *curation, snap.channels@.len() as int, cap@) matches Some(
                b,
            ) && channel_views(snap.channels@)[b.0].key == p.0@ && channel_views(snap.channels@)[b.0].sources[b.1].stream_id
                == p.1,
            None => variant_pick(*scope, channel_views(snap.channels@), *curation, snap.channels@.len() as int, cap@) is None,
        },
{
    let ghost views = channel_views(snap.channels@);
    let mut best: Option<(usize, usize)> = None;
    let mut i: usize = 0;
    while i < snap.channels.len()
        invariant
            i <= snap.channels@.len(),
            scope.wf(),
            views == channel_views(snap.channels@),
            match best {
                Some(b) => b.0 < i && b.1 < snap.channels@[b.0 as int].sources@.len() && variant_pick(
                    *scope,
                    views,
                    *curation,
                    i as int,
                    cap@,
                ) == Some((b.0 as int, b.1 as int)),
                None => variant_pick(*scope, views, *curation, i as int, cap@) is None,
            },
        decreases snap.channels@.len() - i,
    {
        proof {
            assert(views[i as int] == snap.channels@[i as int]@);
        }
        if let Some(j) = find_asking(scope, snap, i, cap) {
            match best {
                Some(b) => {
                    proof {
                        assert(views[b.0 as int] == snap.channels@[b.0 as int]@);
                    }
                    if curation.rank_of(&snap.channels[i].key).unwrap_or(usize::MAX) < curation.rank_of(
                        &snap.channels[b.0].key,
                    ).unwrap_or(usize::MAX) {
                        best = Some((i, j));
                    }
                },
                None => {
                    best = Some((i, j));
                },
            }
        }
        i = i + 1;
    }
    match best {
        Some(b) => {
            let ch = &snap.channels[b.0];
            proof {
                assert(views[b.0 as int] == ch@);
                assert(ch@.sources[b.1 as int] == ch.sources@[b.1 as int]@);
            }
            Some((ch.key.clone(), ch.sources[b.1].stream_id))
        },
        None => None,
    }
}

// --- What is promised of it ------------------------------------------------------------------

/// A channel of which nothing was measured is not tightened.
pub proof fn law_sparse_data_keeps_baseline(store: Windows, c: ChannelView, alive: Seq<Seq<char>>)
    requires
        c.kind == ChannelKind::Tv,
        !any_measured(store, c, alive),
    ensures
        channel_caps(store, c, alive) == seq!["hls"@, "h264"@, "aac"@, "live_video_hls"@],
{
    assert(channel_caps(store, c, alive) =~= seq!["hls"@, "h264"@, "aac"@, "live_video_hls"@]);
}

/// One measurement that is not of the kind in question keeps the channel from being
/// tightened, and from being probed with.
pub proof fn law_mixed_channels_are_not_tightened(
    store: Windows,
    c: ChannelView,
    alive: Seq<Seq<char>>,
    i: int,
    host: Seq<char>,
    target: ProbeTarget,
)
    requires
        c.kind == ChannelKind::Tv,
        measured_on(store, c, alive, i, host) matches Some(q) && !satisfies(q, target),
    ensures
        !matches_probe(store, c, alive, target),
        target == ProbeTarget::DvbSafe ==> !channel_caps(store, c, alive).contains("dvb_safe"@),
        target == ProbeTarget::HevcMain10 ==> !channel_caps(store, c, alive).contains("hevc_main10"@),
        target == ProbeTarget::Hevc ==> channel_caps(store, c, alive)[1] == "h264"@,
{
    reveal_strlit("hls");
    reveal_strlit("hevc");
    reveal_strlit("h264");
    reveal_strlit("aac");
    reveal_strlit("live_video_hls");
    reveal_strlit("hevc_main10");
    reveal_strlit("dvb_safe");
    assert(!all_measured(store, c, alive, target));
    let caps = channel_caps(store, c, alive);
    if target == ProbeTarget::DvbSafe && caps.contains("dvb_safe"@) {
        let k = choose|k: int| 0 <= k < caps.len() && caps[k] == "dvb_safe"@;
        assert("dvb_safe"@.len() == 8 && "dvb_safe"@[0] == 'd');
        assert(k <= 4);
    }
    if target == ProbeTarget::HevcMain10 && caps.contains("hevc_main10"@) {
        let k = choose|k: int| 0 <= k < caps.len() && caps[k] == "hevc_main10"@;
        assert("hevc_main10"@.len() == 11);
        assert(k <= 4);
    }
}

/// A television channel of which everything that was measured is HEVC asks for HEVC in the place of
/// H.264; for ten bits where all of it has them; and for subtitle safety where all of it needs that.
pub proof fn law_channels_are_tightened_by_what_was_measured(
    store: Windows,
    c: ChannelView,
    alive: Seq<Seq<char>>,
    i: int,
    host: Seq<char>,
)
    requires
        c.kind == ChannelKind::Tv,
        measured_on(store, c, alive, i, host) is Some,
    ensures
        (forall|k: int, h: Seq<char>|
            (#[trigger] measured_on(store, c, alive, k, h)) matches Some(q) ==> q.codec == Some("hevc"@))
            ==> channel_caps(store, c, alive)[1] == "hevc"@,
        (forall|k: int, h: Seq<char>|
            (#[trigger] measured_on(store, c, alive, k, h)) matches Some(q) ==> q.codec == Some("hevc"@) && ten_bit(q.pix_fmt))
            ==> channel_caps(store, c, alive).contains("hevc_main10"@),
        (forall|k: int, h: Seq<char>|
            (#[trigger] measured_on(store, c, alive, k, h)) matches Some(q) ==> q.dvb_unsafe == Some(true)) ==> channel_caps(
            store,
            c,
            alive,
        ).contains("dvb_safe"@),
        measured_on(store, c, alive, i, host)->0.codec == Some("h264"@) ==> channel_caps(store, c, alive)[1] == "h264"@,
        channel_caps(store, c, alive).take(4) == seq![
            "hls"@,
            channel_caps(store, c, alive)[1],
            "aac"@,
            "live_video_hls"@,
        ],
{
    let caps = channel_caps(store, c, alive);
    assert(any_measured(store, c, alive));
    reveal_strlit("hevc");
    reveal_strlit("h264");
    assert("hevc"@[1] == 'e' && "h264"@[1] == '2');
    if all_measured(store, c, alive, ProbeTarget::HevcMain10) {
        assert(caps[4] == "hevc_main10"@);
    }
    if all_measured(store, c, alive, ProbeTarget::DvbSafe) {
        assert(caps[caps.len() - 1] == "dvb_safe"@);
    }
    assert(caps.take(4) =~= seq!["hls"@, caps[1], "aac"@, "live_video_hls"@]);
}

/// Radio asks for playlists where some source comes as one or none has a format, and else for AAC
/// alone.
pub proof fn law_radio_asks_by_its_formats(store: Windows, c: ChannelView, alive: Seq<Seq<char>>, i: int)
    requires
        c.kind == ChannelKind::Radio,
        0 <= i < c.sources.len(),
    ensures
        c.sources[i].radio_format == Some(RadioFormat::Hls) ==> channel_caps(store, c, alive) == seq![
            "hls"@,
            "aac"@,
            "live_audio_only_hls"@,
        ],
        c.sources[i].radio_format is Some && (forall|j: int|
            0 <= j < c.sources.len() ==> (#[trigger] c.sources[j]).radio_format != Some(RadioFormat::Hls)) ==> channel_caps(
            store,
            c,
            alive,
        ) == seq!["aac"@],
        (forall|j: int| 0 <= j < c.sources.len() ==> (#[trigger] c.sources[j]).radio_format is None) ==> channel_caps(
            store,
            c,
            alive,
        ) == seq!["hls"@, "aac"@, "live_audio_only_hls"@],
{
}

/// What was measured of a source counts on the hosts that are alive and on the one that listed it;
/// nothing counts of a source with a URL of its own.
pub proof fn law_measurements_count_on_known_hosts(store: Windows, c: ChannelView, alive: Seq<Seq<char>>, i: int, host: Seq<char>)
    requires
        0 <= i < c.sources.len(),
    ensures
        c.sources[i].direct_source is Some ==> measured_on(store, c, alive, i, host) is None,
        !alive.contains(host) && c.sources[i].origin_host != host ==> measured_on(store, c, alive, i, host) is None,
        c.sources[i].direct_source is None && alive.contains(host) ==> measured_on(store, c, alive, i, host) == quality(
            window(store, c.sources[i].stream_id, host),
        ),
        c.sources[i].direct_source is None && host.len() > 0 && c.sources[i].origin_host == host ==> measured_on(
            store,
            c,
            alive,
            i,
            host,
        ) == quality(window(store, c.sources[i].stream_id, host)),
{
}

/// A host serves a stream while it is alive and not bad, and what was measured of the stream on it
/// is not too old; of a stream that was not measured nothing is.
pub proof fn law_hosts_serve_while_measurements_are_fresh(s: Scope, host: Seq<char>, stream_id: u64)
    requires
        texts(s.alive@).contains(host),
        !host_bad(s.blacklist@.hosts, s.blacklist.config, host, s.now),
    ensures
        ({
            let w = window(s.measured@, stream_id, host);
            &&& w.len() == 0 ==> s.eligible(host, stream_id)
            &&& w.len() > 0 && s.stale_secs > 0 && s.now - w.last().at < s.stale_secs * 1000000000 ==> s.eligible(
                host,
                stream_id,
            )
            &&& w.len() > 0 && s.stale_secs > 0 && s.now - w.last().at >= s.stale_secs * 1000000000 ==> !s.eligible(
                host,
                stream_id,
            )
        }),
{
}

/// The channel to probe with is the best-placed of those that match, the first of several.
pub proof fn law_targets_are_probed_with_the_best_placed(
    store: Windows,
    cs: Seq<ChannelView>,
    curation: Curation,
    alive: Seq<Seq<char>>,
    target: ProbeTarget,
)
    ensures
        match probe_pick(store, cs, curation, alive, target) {
            Some(b) => {
                &&& 0 <= b < cs.len()
                &&& matches_probe(store, cs[b], alive, target)
                &&& forall|j: int|
                    0 <= j < cs.len() && matches_probe(store, #[trigger] cs[j], alive, target) ==> place_or_last(
                        curation,
                        cs[b].key,
                    ) <= place_or_last(curation, cs[j].key)
                &&& forall|j: int|
                    0 <= j < b && matches_probe(store, #[trigger] cs[j], alive, target) ==> place_or_last(
                        curation,
                        cs[b].key,
                    ) < place_or_last(curation, cs[j].key)
            },
            None => forall|j: int| 0 <= j < cs.len() ==> !matches_probe(store, #[trigger] cs[j], alive, target),
        },
    decreases cs.len(),
{
    if cs.len() > 0 {
        let t = cs.drop_last();
        law_targets_are_probed_with_the_best_placed(store, t, curation, alive, target);
        assert forall|j: int| 0 <= j < t.len() implies #[trigger] cs[j] == t[j] by {}
    }
}

proof fn lemma_source_asking(scope: Scope, cs: Seq<ChannelView>, i: int, from: int, cap: Seq<char>)
    requires
        0 <= i < cs.len(),
        0 <= from <= cs[i].sources.len(),
    ensures
        match source_asking(scope, cs, i, from, cap) {
            Some(j) => from <= j < cs[i].sources.len() && asks_at(scope, cs, i, j, cap),
            None => forall|j: int| from <= j < cs[i].sources.len() ==> !#[trigger] asks_at(scope, cs, i, j, cap),
        },
    decreases cs[i].sources.len() - from,
{
    if from < cs[i].sources.len() && !asks_at(scope, cs, i, from, cap) {
        lemma_source_asking(scope, cs, i, from + 1, cap);
    }
}

/// A capability is probed with a variant that can be served and asks for it, of the best-placed
/// channel that has one.
pub proof fn law_capabilities_are_probed_with_the_best_placed(
    scope: Scope,
    cs: Seq<ChannelView>,
    curation: Curation,
    n: int,
    cap: Seq<char>,
)
    requires
        0 <= n <= cs.len(),
    ensures
        match variant_pick(scope, cs, curation, n, cap) {
            Some(b) => {
                &&& 0 <= b.0 < n
                &&& cs[b.0].kind == ChannelKind::Tv
                &&& 0 <= b.1 < cs[b.0].sources.len()
                &&& scope.served(cs[b.0].sources[b.1].stream_id)
                &&& scope.asks(cs[b.0].sources[b.1].stream_id, cap)
                &&& forall|i: int, j: int|
                    #[trigger] asks_at(scope, cs, i, j, cap) && i < n ==> place_or_last(curation, cs[b.0].key)
                        <= place_or_last(curation, cs[i].key)
            },
            None => forall|i: int, j: int| i < n ==> !#[trigger] asks_at(scope, cs, i, j, cap),
        },
    decreases n,
{
    if n > 0 {
        law_capabilities_are_probed_with_the_best_placed(scope, cs, curation, n - 1, cap);
        lemma_source_asking(scope, cs, n - 1, 0, cap);
    }
}

/// A stream asks for all that was measured of it on hosts that serve it; while nothing was, for
/// what its kind does: playlists and sound for radio, H.264 with sound for television.
pub proof fn law_streams_ask_for_what_was_measured(s: Scope, stream_id: u64, host: Seq<char>, cap: Seq<char>)
    ensures
        s.eligible(host, stream_id) && (quality(window(s.measured@, stream_id, host)) matches Some(q)
            && q.caps_required.contains(cap)) ==> s.asks(stream_id, cap),
        !s.known(stream_id) && !radio_id(stream_id) ==> s.asks(stream_id, cap) == (cap == "hls"@ || cap == "h264"@ || cap
            == "aac"@ || cap == "live_video_hls"@),
        !s.known(stream_id) && radio_id(stream_id) ==> s.asks(stream_id, cap) == (cap == "hls"@ || cap
            == "live_audio_only_hls"@),
{
    if s.asks_on(stream_id, host, cap) {
        assert(s.eligible(host, stream_id));
    }
    let b = baseline(stream_id);
    if radio_id(stream_id) {
        assert(b[0] == "hls"@ && b[1] == "live_audio_only_hls"@);
    } else {
        assert(b[0] == "hls"@ && b[1] == "h264"@ && b[2] == "aac"@ && b[3] == "live_video_hls"@);
    }
}

} // verus!
