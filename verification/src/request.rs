//! Requests for a channel: what is to be played, and what is refused.
use vstd::prelude::*;
use vstd::utf8::{decode_utf8, valid_utf8};
use crate::candidates::{World, build_candidates, place_of, promote_url, promoted, text_of};
use crate::canonical::{CanonicalChannel, ChannelView, SourceView, source_views};
use crate::catchup::PlayParams;
use crate::json::Json;
use crate::outside::{decode_url_base64, opt_bytes, url_base64_decoded};
use crate::play_log::PlayLog;
use crate::proxy::{CandView, Candidate, cand_views, clean_pid, client_has_cap, parse_caps_list, sanitize_pid, tags};
use crate::radio::RadioFormat;
use crate::text::{ascii_lowercase, chars_of, ends_with, hex, opt_text, owned, push_text, str_eq, str_lower, string_of, texts};
use crate::text::{trim_end_str, trim_end_text};
use crate::xtream::ChannelKind;

verus! {

/// The key of the channel in the last part of a play URL.
pub open spec fn route_key(name: Seq<char>) -> Seq<char> {
    trim_end_text(trim_end_text(trim_end_text(name, ".m3u8"@), ".ts"@), ".audio"@)
}

pub fn channel_key(name: &str) -> (r: String)
    ensures
        r@ == route_key(name@),
{
    proof {
        reveal_strlit(".m3u8");
        reveal_strlit(".ts");
        reveal_strlit(".audio");
    }
    string_of(&trim_end_str(&trim_end_str(&trim_end_str(&chars_of(name), ".m3u8"), ".ts"), ".audio"))
}

/// Whether a query value means yes; a fault where it means neither yes nor no.
pub open spec fn yes_or_no(v: Json) -> Result<bool, Seq<char>> {
    match v {
        Json::Bool(b) => Ok(b),
        Json::Number(n) => Ok(n matches Some(x) && x != 0),
        Json::Text(s) => {
            let t = ascii_lowercase(s@);
            if t == "1"@ || t == "true"@ || t == "yes"@ || t == "on"@ {
                Ok(true)
            } else if t.len() == 0 || t == "0"@ || t == "false"@ || t == "no"@ || t == "off"@ {
                Ok(false)
            } else {
                Err("not a bool: "@ + t)
            }
        },
        _ => Err("expected bool"@),
    }
}

pub fn read_bool(v: &Json) -> (r: Result<bool, String>)
    ensures
        match r {
            Ok(b) => yes_or_no(*v) == Ok::<bool, Seq<char>>(b),
            Err(e) => yes_or_no(*v) == Err::<bool, Seq<char>>(e@),
        },
{
    match v {
        Json::Bool(b) => Ok(*b),
        Json::Number(n) => match n {
            Some(x) => Ok(*x != 0),
            None => Ok(false),
        },
        Json::Text(s) => {
            let t = str_lower(s);
            if str_eq(&t, "1") || str_eq(&t, "true") || str_eq(&t, "yes") || str_eq(&t, "on") {
                return Ok(true);
            }
            if t.as_str().is_empty() || str_eq(&t, "0") || str_eq(&t, "false") || str_eq(&t, "no") || str_eq(&t, "off") {
                return Ok(false);
            }
            let mut e = owned("not a bool: ");
            push_text(&mut e, &t);
            Err(e)
        },
        _ => Err(owned("expected bool")),
    }
}

/// The id that the client gave the play, cleaned; none where nothing is left of it.
pub open spec fn usable_pid(pid: Option<String>) -> Option<Seq<char>> {
    match pid {
        Some(p) => if clean_pid(p@).len() > 0 {
            Some(clean_pid(p@))
        } else {
            None
        },
        None => None,
    }
}

pub fn client_pid(pid: &Option<String>) -> (r: Option<String>)
    ensures
        opt_text(r) == usable_pid(*pid),
{
    match pid {
        Some(p) => {
            let s = sanitize_pid(p);
            if s.as_str().is_empty() {
                None
            } else {
                Some(s)
            }
        },
        None => None,
    }
}

/// The id of a play in the log: the client's, or the next one of the log.
pub fn play_id(probe: bool, pid: &Option<String>, log: &mut PlayLog) -> (r: String)
    ensures
        final(log)@ == old(log)@,
        final(log).wf() == old(log).wf(),
        match (probe, *pid) {
            (true, _) => r@ == "probe"@ && final(log).counter == old(log).counter,
            (false, Some(p)) => r@ == p@ && final(log).counter == old(log).counter,
            (false, None) => r@ == hex((old(log).counter % 0x100_0000) as nat, 6) && final(log).counter == (old(log).counter + 1)
                % 0x1_0000_0000,
        },
{
    if probe {
        return owned("probe");
    }
    match pid {
        Some(p) => p.clone(),
        None => log.next_id(),
    }
}

/// The format of the first source that has one.
pub open spec fn first_format(s: Seq<SourceView>) -> Option<RadioFormat>
    decreases s.len(),
{
    if s.len() == 0 {
        None
    } else if s[0].radio_format is Some {
        s[0].radio_format
    } else {
        first_format(s.skip(1))
    }
}

pub fn radio_format_of(channel: &CanonicalChannel) -> (r: Option<RadioFormat>)
    ensures
        r == first_format(channel@.sources),
{
    let ghost all = source_views(channel.sources@);
    let mut i: usize = 0;
    proof {
        assert(all.skip(0) =~= all);
    }
    while i < channel.sources.len()
        invariant
            i <= channel.sources@.len(),
            all == source_views(channel.sources@),
            first_format(all) == first_format(all.skip(i as int)),
        decreases channel.sources@.len() - i,
    {
        proof {
            assert(all.skip(i as int)[0] == channel.sources@[i as int]@);
            assert(all.skip(i as int).skip(1) =~= all.skip(i + 1));
        }
        if channel.sources[i].radio_format.is_some() {
            return channel.sources[i].radio_format;
        }
        i = i + 1;
    }
    None
}

/// The format of a radio channel that is not played as a playlist.
pub open spec fn raw_audio(c: ChannelView) -> Option<RadioFormat> {
    match (c.kind, first_format(c.sources)) {
        (ChannelKind::Radio, Some(f)) => if f == RadioFormat::Hls {
            None
        } else {
            Some(f)
        },
        _ => None,
    }
}

/// Why a channel is not played.
#[derive(Debug, Clone, Copy, PartialEq, Eq, Structural)]
pub enum PlayRefusal {
    /// The client can play none of the variants.
    CapsMismatch,
    NoSources,
    /// There is no candidate for the stream that the probe asks for.
    ProbePinFailed,
    /// The URL that the client asks for is none of the candidates.
    UnknownForceUrl,
}

impl PlayRefusal {
    /// The HTTP status.
    pub fn status(&self) -> (r: u16)
        ensures
            r == match self {
                PlayRefusal::CapsMismatch => 502u16,
                PlayRefusal::NoSources => 503u16,
                PlayRefusal::ProbePinFailed => 502u16,
                PlayRefusal::UnknownForceUrl => 404u16,
            },
    {
        match self {
            PlayRefusal::CapsMismatch => 502,
            PlayRefusal::NoSources => 503,
            PlayRefusal::ProbePinFailed => 502,
            PlayRefusal::UnknownForceUrl => 404,
        }
    }

    /// The value of the header `x-fail-reason`.
    pub fn reason(&self) -> (r: Option<&'static str>)
        ensures
            match self {
                PlayRefusal::CapsMismatch => r matches Some(t) && t@ == "caps-mismatch"@,
                PlayRefusal::ProbePinFailed => r matches Some(t) && t@ == "probe-pin-failed"@,
                _ => r is None,
            },
    {
        match self {
            PlayRefusal::CapsMismatch => Some("caps-mismatch"),
            PlayRefusal::ProbePinFailed => Some("probe-pin-failed"),
            _ => None,
        }
    }

    pub fn message(&self) -> (r: &'static str)
        ensures
            r@ == match self {
                PlayRefusal::CapsMismatch => "no variant matches client caps"@,
                PlayRefusal::NoSources => "no candidate sources for channel"@,
                PlayRefusal::ProbePinFailed => "probe pin matched no candidate"@,
                PlayRefusal::UnknownForceUrl => "unknown force_url"@,
            },
    {
        match self {
            PlayRefusal::CapsMismatch => "no variant matches client caps",
            PlayRefusal::NoSources => "no candidate sources for channel",
            PlayRefusal::ProbePinFailed => "probe pin matched no candidate",
            PlayRefusal::UnknownForceUrl => "unknown force_url",
        }
    }
}

/// The value of the header `x-fail-reason` where all candidates failed.
pub fn failure_reason(params: &PlayParams) -> (r: Option<&'static str>)
    ensures
        params.probe && params.probe_stream_id is Some ==> (r matches Some(t) && t@ == "probe-pin-failed"@),
        !(params.probe && params.probe_stream_id is Some) ==> r is None,
{
    if params.probe && params.probe_stream_id.is_some() {
        Some("probe-pin-failed")
    } else {
        None
    }
}

/// What to play, and how.
#[derive(Debug)]
pub struct PlayPlan {
    pub candidates: Vec<Candidate>,
    /// The format of radio that is no playlist.
    pub audio: Option<RadioFormat>,
    /// The client can play streams with subtitles that others trip over.
    pub dvb_safe: bool,
}

/// The contents of a `PlayPlan`.
pub struct PlanView {
    pub candidates: Seq<CandView>,
    pub audio: Option<RadioFormat>,
    pub dvb_safe: bool,
}

impl View for PlayPlan {
    type V = PlanView;

    open spec fn view(&self) -> PlanView {
        PlanView { candidates: cand_views(self.candidates@), audio: self.audio, dvb_safe: self.dvb_safe }
    }
}

/// What the client can play, where it says so. A probe says nothing: it is there to find out.
pub open spec fn stated_caps(p: PlayParams) -> Option<Set<Seq<char>>> {
    match p.caps {
        Some(raw) => if p.probe {
            None
        } else {
            let named = Set::new(|t: Seq<char>| t.len() > 0 && tags(raw@).contains(t));
            if exists|t: Seq<char>| #[trigger] named.contains(t) {
                Some(named)
            } else {
                None
            }
        },
        None => None,
    }
}

/// The candidates for one stream.
pub open spec fn pinned(s: Seq<CandView>, stream_id: u64) -> Seq<CandView>
    decreases s.len(),
{
    if s.len() == 0 {
        s
    } else if s.last().stream_id == stream_id {
        pinned(s.drop_last(), stream_id).push(s.last())
    } else {
        pinned(s.drop_last(), stream_id)
    }
}

/// The candidates for a request: for a probe, those of the stream that it asks for.
pub open spec fn asked_candidates(all: Seq<CandView>, p: PlayParams) -> Seq<CandView> {
    match p.probe_stream_id {
        Some(id) => if p.probe {
            pinned(all, id)
        } else {
            all
        },
        None => all,
    }
}

/// What a request comes to. The outer `forced` says whether a URL is asked for, the inner one
/// what the bytes of it are.
pub open spec fn plan(world: World, c: ChannelView, p: PlayParams, forced: Option<Option<Seq<u8>>>) -> Result<
    PlanView,
    PlayRefusal,
> {
    let all = world.candidates(c, stated_caps(p));
    let cs = asked_candidates(all, p);
    if all.len() == 0 && stated_caps(p) is Some {
        Err(PlayRefusal::CapsMismatch)
    } else if all.len() == 0 {
        Err(PlayRefusal::NoSources)
    } else if cs.len() == 0 {
        Err(PlayRefusal::ProbePinFailed)
    } else {
        let dvb_safe = !p.probe && (p.caps matches Some(raw) && tags(raw@).contains("dvb_safe"@));
        match forced {
            None => Ok(PlanView { candidates: cs, audio: raw_audio(c), dvb_safe }),
            Some(payload) => match text_of(payload) {
                Some(url) => if place_of(cs, url) < cs.len() {
                    Ok(PlanView { candidates: promoted(cs, place_of(cs, url)), audio: raw_audio(c), dvb_safe })
                } else {
                    Err(PlayRefusal::UnknownForceUrl)
                },
                None => Err(PlayRefusal::UnknownForceUrl),
            },
        }
    }
}

fn pin(v: Vec<Candidate>, stream_id: u64) -> (r: Vec<Candidate>)
    ensures
        cand_views(r@) == pinned(cand_views(v@), stream_id),
{
    let ghost all = cand_views(v@);
    let ghost items = v@;
    let mut out: Vec<Candidate> = Vec::new();
    for c in it: v
        invariant
            it.seq() == items,
            all == cand_views(items),
            cand_views(out@) == pinned(all.take(it.index()), stream_id),
    {
        let ghost was = cand_views(out@);
        let ghost v = c@;
        proof {
            let k = it.index();
            assert(all[k] == c@);
            assert(all.take(k + 1).drop_last() =~= all.take(k));
            assert(all.take(k + 1).last() == c@);
        }
        if c.stream_id == stream_id {
            out.push(c);
            proof {
                assert(cand_views(out@) =~= was.push(v));
            }
        }
    }
    proof {
        assert(all.take(all.len() as int) =~= all);
    }
    out
}

fn caps_of(p: &PlayParams) -> (r: Option<Vec<String>>)
    ensures
        match r {
            Some(v) => stated_caps(*p) == Some(texts(v@).to_set()),
            None => stated_caps(*p) is None,
        },
{
    if p.probe {
        return None;
    }
    let r = parse_caps_list(&p.caps);
    proof {
        if p.caps is Some {
            let raw = p.caps->0@;
            let named = Set::new(|t: Seq<char>| t.len() > 0 && tags(raw).contains(t));
            match &r {
                Some(v) => {
                    let t = choose|t: Seq<char>| #[trigger] tags(raw).contains(t) && t.len() > 0;
                    assert(named.contains(t));
                    assert forall|t: Seq<char>| named.contains(t) == texts(v@).to_set().contains(t) by {
                        assert(texts(v@).contains(t) == (t.len() > 0 && tags(raw).contains(t)));
                    }
                    assert(named =~= texts(v@).to_set());
                },
                None => {
                    if exists|t: Seq<char>| #[trigger] named.contains(t) {
                        let t = choose|t: Seq<char>| #[trigger] named.contains(t);
                        assert(tags(raw).contains(t) && t.len() > 0);
                    }
                },
            }
        }
    }
    r
}

/// What a request for a channel comes to, where the URL that it asks for was decoded.
pub fn plan_decoded(
    world: &World<'_>,
    channel: &CanonicalChannel,
    params: &PlayParams,
    forced: Option<Option<Vec<u8>>>,
) -> (r: Result<PlayPlan, PlayRefusal>)
    requires
        world.wf(),
    ensures
        ({
            let bytes = match forced {
                Some(payload) => Some(opt_bytes(payload)),
                None => None,
            };
            match r {
                Ok(p) => plan(*world, channel@, *params, bytes) == Ok::<PlanView, PlayRefusal>(p@),
                Err(e) => plan(*world, channel@, *params, bytes) == Err::<PlanView, PlayRefusal>(e),
            }
        }),
{
    let caps = caps_of(params);
    let all = match &caps {
        Some(v) => build_candidates(world, channel, Some(v.as_slice())),
        None => build_candidates(world, channel, None),
    };
    if all.len() == 0 {
        if caps.is_some() {
            return Err(PlayRefusal::CapsMismatch);
        }
        return Err(PlayRefusal::NoSources);
    }
    let mut cs = match params.probe_stream_id {
        Some(id) => if params.probe {
            pin(all, id)
        } else {
            all
        },
        None => all,
    };
    if cs.len() == 0 {
        return Err(PlayRefusal::ProbePinFailed);
    }
    if let Some(payload) = forced {
        match promote_url(&mut cs, payload) {
            Ok(url) => {},
            Err(_) => {
                return Err(PlayRefusal::UnknownForceUrl);
            },
        }
    }
    let audio = match channel.kind {
        ChannelKind::Radio => match radio_format_of(channel) {
            Some(f) => if f == RadioFormat::Hls {
                None
            } else {
                Some(f)
            },
            None => None,
        },
        ChannelKind::Tv => None,
    };
    let dvb_safe = !params.probe && client_has_cap(&params.caps, "dvb_safe");
    Ok(PlayPlan { candidates: cs, audio, dvb_safe })
}

/// The bytes of the URL that a request asks for.
pub open spec fn forced_bytes(p: PlayParams) -> Option<Option<Seq<u8>>> {
    match p.force_url {
        Some(e) => Some(url_base64_decoded(e@)),
        None => None,
    }
}

/// What a request for a channel comes to.
pub fn plan_play(world: &World<'_>, channel: &CanonicalChannel, params: &PlayParams) -> (r: Result<PlayPlan, PlayRefusal>)
    requires
        world.wf(),
    ensures
        match r {
            Ok(p) => plan(*world, channel@, *params, forced_bytes(*params)) == Ok::<PlanView, PlayRefusal>(p@),
            Err(e) => plan(*world, channel@, *params, forced_bytes(*params)) == Err::<PlanView, PlayRefusal>(e),
        },
{
    let forced = match &params.force_url {
        Some(e) => Some(decode_url_base64(e)),
        None => None,
    };
    plan_decoded(world, channel, params, forced)
}

// --- What is promised of it -------------------------------------------------------------------

proof fn lemma_pinned(s: Seq<CandView>, stream_id: u64)
    ensures
        forall|i: int| 0 <= i < pinned(s, stream_id).len() ==> (#[trigger] pinned(s, stream_id)[i]).stream_id == stream_id
            && s.contains(pinned(s, stream_id)[i]),
    decreases s.len(),
{
    if s.len() > 0 {
        let t = s.drop_last();
        lemma_pinned(t, stream_id);
        let p = pinned(s, stream_id);
        let q = pinned(t, stream_id);
        assert forall|i: int| 0 <= i < p.len() implies (#[trigger] p[i]).stream_id == stream_id && s.contains(p[i]) by {
            if i < q.len() {
                assert(p[i] == q[i]);
                let k = choose|k: int| 0 <= k < t.len() && t[k] == q[i];
                assert(s[k] == q[i]);
            } else {
                assert(s[s.len() - 1] == p[i]);
            }
        }
    }
}

proof fn lemma_promoted_contains(s: Seq<CandView>, i: int, k: int)
    requires
        0 <= i < s.len(),
        0 <= k < s.len(),
    ensures
        s.contains(promoted(s, i)[k]),
{
    let p = promoted(s, i);
    if k == 0 {
        assert(p[k] == s[i]);
    } else if k <= i {
        assert(p[k] == s[k - 1]);
    } else {
        assert(p[k] == s[k]);
    }
}

/// Only URLs of the channel are ever tried, whatever URL the client asks for.
pub proof fn law_only_candidates_are_tried(
    world: World,
    c: ChannelView,
    p: PlayParams,
    forced: Option<Option<Seq<u8>>>,
    k: int,
)
    requires
        plan(world, c, p, forced) matches Ok(v) && 0 <= k < v.candidates.len(),
    ensures
        world.candidates(c, stated_caps(p)).contains(plan(world, c, p, forced)->Ok_0.candidates[k]),
{
    let all = world.candidates(c, stated_caps(p));
    let cs = asked_candidates(all, p);
    let v = plan(world, c, p, forced)->Ok_0;
    if p.probe_stream_id is Some {
        lemma_pinned(all, p.probe_stream_id->0);
    }
    assert forall|j: int| 0 <= j < cs.len() implies all.contains(#[trigger] cs[j]) by {}
    if forced is Some {
        let url = text_of(forced->0)->0;
        let i = place_of(cs, url);
        assert(i >= 0) by {
            lemma_place(cs, url);
        }
        lemma_promoted_contains(cs, i, k);
        let j = choose|j: int| 0 <= j < cs.len() && cs[j] == v.candidates[k];
        assert(all.contains(cs[j]));
    }
}

proof fn lemma_place(s: Seq<CandView>, url: Seq<char>)
    ensures
        0 <= place_of(s, url) <= s.len(),
    decreases s.len(),
{
    if s.len() > 0 && s[0].url != url {
        lemma_place(s.skip(1), url);
    }
}

/// A probe for one stream tries no other.
pub proof fn law_probes_stay_with_their_stream(
    world: World,
    c: ChannelView,
    p: PlayParams,
    forced: Option<Option<Seq<u8>>>,
    k: int,
)
    requires
        p.probe,
        p.probe_stream_id is Some,
        plan(world, c, p, forced) matches Ok(v) && 0 <= k < v.candidates.len(),
    ensures
        plan(world, c, p, forced)->Ok_0.candidates[k].stream_id == p.probe_stream_id->0,
{
    let all = world.candidates(c, stated_caps(p));
    let cs = asked_candidates(all, p);
    let v = plan(world, c, p, forced)->Ok_0;
    lemma_pinned(all, p.probe_stream_id->0);
    if forced is Some {
        let url = text_of(forced->0)->0;
        lemma_place(cs, url);
        lemma_promoted_contains(cs, place_of(cs, url), k);
        let j = choose|j: int| 0 <= j < cs.len() && cs[j] == v.candidates[k];
        assert(cs[j].stream_id == p.probe_stream_id->0);
    }
}

/// A channel without candidates is not played: the client is to blame where it says what it can
/// play, else there are no sources. A probe never says so.
pub proof fn law_plays_need_candidates(world: World, c: ChannelView, p: PlayParams, forced: Option<Option<Seq<u8>>>)
    requires
        world.candidates(c, stated_caps(p)).len() == 0,
    ensures
        p.caps is None ==> plan(world, c, p, forced) == Err::<PlanView, PlayRefusal>(PlayRefusal::NoSources),
        p.probe ==> plan(world, c, p, forced) == Err::<PlanView, PlayRefusal>(PlayRefusal::NoSources),
        (p.caps matches Some(raw) && !p.probe && exists|t: Seq<char>| t.len() > 0 && #[trigger] tags(raw@).contains(t))
            ==> plan(world, c, p, forced) == Err::<PlanView, PlayRefusal>(PlayRefusal::CapsMismatch),
{
    if let Some(raw) = p.caps {
        let named = Set::new(|t: Seq<char>| t.len() > 0 && tags(raw@).contains(t));
        if exists|t: Seq<char>| t.len() > 0 && #[trigger] tags(raw@).contains(t) {
            let t = choose|t: Seq<char>| t.len() > 0 && #[trigger] tags(raw@).contains(t);
            assert(named.contains(t));
        }
    }
}

/// A play that asks for no URL tries all candidates in their order.
pub proof fn law_plays_try_all_candidates(world: World, c: ChannelView, p: PlayParams)
    requires
        world.candidates(c, stated_caps(p)).len() > 0,
        !p.probe || p.probe_stream_id is None,
    ensures
        match plan(world, c, p, None) {
            Ok(v) => v.candidates == world.candidates(c, stated_caps(p)),
            Err(_) => false,
        },
{
}

proof fn lemma_place_is_first(s: Seq<CandView>, url: Seq<char>)
    ensures
        0 <= place_of(s, url) <= s.len(),
        place_of(s, url) < s.len() ==> s[place_of(s, url)].url == url,
        place_of(s, url) == s.len() <==> forall|k: int| 0 <= k < s.len() ==> (#[trigger] s[k]).url != url,
    decreases s.len(),
{
    if s.len() > 0 && s[0].url != url {
        let t = s.skip(1);
        lemma_place_is_first(t, url);
        assert forall|k: int| 1 <= k < s.len() implies #[trigger] s[k] == t[k - 1] by {}
        assert forall|k: int| 0 <= k < t.len() implies #[trigger] t[k] == s[k + 1] by {}
    }
}

/// A play that asks for the URL of a candidate tries that first and the others behind it in their
/// order; one that asks for another URL is refused.
pub proof fn law_forced_urls_come_first(world: World, c: ChannelView, p: PlayParams, payload: Seq<u8>, k: int)
    requires
        !p.probe || p.probe_stream_id is None,
        0 <= k < world.candidates(c, stated_caps(p)).len(),
        forall|j: int|
            0 <= j < k ==> (#[trigger] world.candidates(c, stated_caps(p))[j]).url != world.candidates(c, stated_caps(p))[k].url,
        valid_utf8(payload),
    ensures
        ({
            let all = world.candidates(c, stated_caps(p));
            let r = plan(world, c, p, Some(Some(payload)));
            &&& decode_utf8(payload) == all[k].url ==> (r matches Ok(v) && v.candidates == seq![all[k]] + all.take(k)
                + all.skip(k + 1))
            &&& (forall|j: int| 0 <= j < all.len() ==> (#[trigger] all[j]).url != decode_utf8(payload)) ==> r == Err::<
                PlanView,
                PlayRefusal,
            >(PlayRefusal::UnknownForceUrl)
        }),
{
    let all = world.candidates(c, stated_caps(p));
    let url = decode_utf8(payload);
    lemma_place_is_first(all, url);
    if url == all[k].url {
        let i = place_of(all, url);
        assert(i < all.len());
        lemma_place_before(all, url, k);
        assert(i == k);
        assert(promoted(all, k) =~= seq![all[k]] + all.take(k) + all.skip(k + 1));
    }
}

proof fn lemma_place_before(s: Seq<CandView>, url: Seq<char>, k: int)
    requires
        0 <= k < s.len(),
        s[k].url == url,
        forall|j: int| 0 <= j < k ==> (#[trigger] s[j]).url != url,
    ensures
        place_of(s, url) == k,
    decreases k,
{
    if k > 0 {
        assert(s[0].url != url);
        let t = s.skip(1);
        assert forall|j: int| 0 <= j < k - 1 implies (#[trigger] t[j]).url != url by {
            assert(t[j] == s[j + 1]);
        }
        lemma_place_before(t, url, k - 1);
    }
}

/// Radio is played as what its first source with a format is, and as a playlist where that is one;
/// television always is.
pub proof fn law_radio_plays_by_its_format(world: World, c: ChannelView, p: PlayParams)
    requires
        plan(world, c, p, None) is Ok,
    ensures
        c.kind == ChannelKind::Tv ==> plan(world, c, p, None)->Ok_0.audio is None,
        c.kind == ChannelKind::Radio && c.sources.len() > 0 && (c.sources[0].radio_format matches Some(f) && f
            != RadioFormat::Hls) ==> plan(world, c, p, None)->Ok_0.audio == c.sources[0].radio_format,
        c.sources.len() > 0 && c.sources[0].radio_format == Some(RadioFormat::Hls) ==> plan(world, c, p, None)->Ok_0.audio is None,
        p.probe ==> !plan(world, c, p, None)->Ok_0.dvb_safe,
        p.caps is None ==> !plan(world, c, p, None)->Ok_0.dvb_safe,
        (p.caps matches Some(raw) && !p.probe && tags(raw@).contains("dvb_safe"@)) ==> plan(world, c, p, None)->Ok_0.dvb_safe,
{
}

/// The key of a channel is found again in the URLs by which it is played.
pub proof fn law_play_urls_name_their_channel(key: Seq<char>)
    requires
        !key.contains('.'),
    ensures
        route_key(key) == key,
        route_key(key + ".m3u8"@) == key,
        route_key(key + ".ts"@) == key,
        route_key(key + ".audio"@) == key,
{
    reveal_strlit(".m3u8");
    reveal_strlit(".ts");
    reveal_strlit(".audio");
    lemma_no_ending(key, ".m3u8"@);
    lemma_no_ending(key, ".ts"@);
    lemma_no_ending(key, ".audio"@);
    lemma_one_ending(key, ".m3u8"@);
    lemma_one_ending(key, ".ts"@);
    lemma_one_ending(key, ".audio"@);
    let a = key + ".ts"@;
    assert(a.last() == 's');
    assert(!ends_with(a, ".m3u8"@)) by {
        if ends_with(a, ".m3u8"@) {
            assert(a.skip(a.len() - 5)[4] == a.last());
        }
    }
    let b = key + ".audio"@;
    assert(b.last() == 'o');
    assert(!ends_with(b, ".m3u8"@)) by {
        if ends_with(b, ".m3u8"@) {
            assert(b.skip(b.len() - 5)[4] == b.last());
        }
    }
    assert(!ends_with(b, ".ts"@)) by {
        if ends_with(b, ".ts"@) {
            assert(b.skip(b.len() - 3)[2] == b.last());
        }
    }
}

proof fn lemma_no_ending(key: Seq<char>, pat: Seq<char>)
    requires
        !key.contains('.'),
        pat.len() > 0,
        pat[0] == '.',
    ensures
        !ends_with(key, pat),
        trim_end_text(key, pat) == key,
{
    if ends_with(key, pat) {
        assert(key.skip(key.len() - pat.len())[0] == '.');
        assert(key[key.len() - pat.len()] == '.');
    }
}

proof fn lemma_one_ending(key: Seq<char>, pat: Seq<char>)
    requires
        !key.contains('.'),
        pat.len() > 0,
        pat[0] == '.',
    ensures
        trim_end_text(key + pat, pat) == key,
{
    let s = key + pat;
    assert(s.skip(s.len() - pat.len()) =~= pat);
    assert(s.take(s.len() - pat.len()) =~= key);
    lemma_no_ending(key, pat);
}

/// The words for yes mean yes, and those for no, no.
pub proof fn law_yes_is_yes_and_no_is_no(s: String)
    ensures
        ({
            let r = yes_or_no(Json::Text(s));
            &&& s@ == "1"@ || s@ == "true"@ || s@ == "yes"@ || s@ == "on"@ ==> r == Ok::<bool, Seq<char>>(true)
            &&& s@ == ""@ || s@ == "0"@ || s@ == "false"@ || s@ == "no"@ || s@ == "off"@ ==> r == Ok::<bool, Seq<char>>(false)
            &&& s@ == "maybe"@ ==> r is Err
        }),
        forall|b: bool| #[trigger] yes_or_no(Json::Bool(b)) == Ok::<bool, Seq<char>>(b),
        yes_or_no(Json::Null) is Err,
{
    reveal_strlit("");
    reveal_strlit("1");
    reveal_strlit("true");
    reveal_strlit("yes");
    reveal_strlit("on");
    reveal_strlit("0");
    reveal_strlit("false");
    reveal_strlit("no");
    reveal_strlit("off");
    reveal_strlit("maybe");
    assert(s@ == "1"@ ==> ascii_lowercase(s@) =~= "1"@);
    assert(s@ == "true"@ ==> ascii_lowercase(s@) =~= "true"@);
    assert(s@ == "yes"@ ==> ascii_lowercase(s@) =~= "yes"@);
    assert(s@ == "on"@ ==> ascii_lowercase(s@) =~= "on"@);
    assert(s@ == ""@ ==> ascii_lowercase(s@) =~= ""@);
    assert(s@ == "0"@ ==> ascii_lowercase(s@) =~= "0"@);
    assert(s@ == "false"@ ==> ascii_lowercase(s@) =~= "false"@);
    assert(s@ == "no"@ ==> ascii_lowercase(s@) =~= "no"@);
    assert(s@ == "off"@ ==> ascii_lowercase(s@) =~= "off"@);
    assert(s@ == "maybe"@ ==> ascii_lowercase(s@) =~= "maybe"@);
    assert("0"@[0] == '0' && "1"@[0] == '1');
    assert("no"@[0] == 'n' && "on"@[0] == 'o');
    assert("yes"@[0] == 'y' && "off"@[0] == 'o');
    assert("maybe"@[0] == 'm' && "false"@[0] == 'f');
}

} // verus!
