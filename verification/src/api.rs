//! What the server tells its clients.
use vstd::prelude::*;
use crate::blacklist::{Blacklist, BlacklistView, FAILED_DIAG_STEP, FailureKind, beaten, failed, good_age, host_bad};
use crate::blacklist::state_of;
use crate::candidates::{World, build_candidates, lemma_split_hosts, split_hosts};
use crate::canonical::{CanonicalChannel, ChannelView, SourceView, channel_views, source_views};
use crate::caps_cache::{Scope, pick_probe_variant, place_or_last, variant_pick};
use crate::catalog::CatalogSnapshot;
use crate::default_order::Curation;
use crate::epg::{EpgCandView, EpgCandidate, epg_views, format_rtp_date, rtp_date};
use crate::measured::{MeasuredQuality, QualityView, quality, window};
use crate::order::{lemma_sorted, sort_dedup, sorted};
use crate::outside::{in_calendar, lowercase, to_lowercase};
use crate::play_sessions::{PlaySessions, session_at};
use crate::proxy::{CandView, cand_views};
use crate::radio::RadioFormat;
use crate::request::{first_format, radio_format_of};
use crate::text::{ascii_lowercase, before, before_char, chars_of, contains, decimal, has_text, index_or_len};
use crate::text::{lemma_index_or_len, opt_text, owned};
use crate::text::{push_decimal, push_text, replace_text, replaced_text, split, split_chars, str_eq, str_has};
use crate::text::{str_lower, string_of, texts, trim, trim_chars, trim_end_char, trim_end_matches, views};
use crate::xtream::ChannelKind;

verus! {

// --- Where the client reached the server ---------------------------------------------------------

/// What a request says of how it reached the server.
#[derive(Debug)]
pub struct Origin {
    /// The header `X-Forwarded-Host`.
    pub forwarded_host: Option<String>,
    /// The header `X-Forwarded-Proto`.
    pub forwarded_proto: Option<String>,
    /// The header `Host`.
    pub host: Option<String>,
}

/// The text without white space around it; none where nothing is left.
pub open spec fn filled(s: Seq<char>) -> Option<Seq<char>> {
    if trim(s).len() > 0 {
        Some(trim(s))
    } else {
        None
    }
}

/// The first value of a header with commas.
pub open spec fn first_value(h: Option<String>) -> Option<Seq<char>> {
    match h {
        Some(s) => filled(before(s@, ',')),
        None => None,
    }
}

/// The host by which the client knows the server.
pub open spec fn known_host(o: Origin) -> Option<Seq<char>> {
    match first_value(o.forwarded_host) {
        Some(h) => Some(h),
        None => match o.host {
            Some(h) => filled(h@),
            None => None,
        },
    }
}

/// The start of the URLs by which the client reaches the server.
pub open spec fn base_url(o: Origin, fallback: Option<Seq<char>>) -> Seq<char> {
    match known_host(o) {
        Some(h) => (match first_value(o.forwarded_proto) {
            Some(p) => p,
            None => "http"@,
        }) + "://"@ + h,
        None => match fallback {
            Some(f) => trim_end_char(f, '/'),
            None => "http://localhost:8080"@,
        },
    }
}

fn read_filled(s: &[char]) -> (r: Option<String>)
    ensures
        opt_text(r) == filled(s@),
{
    let t = trim_chars(s);
    if t.len() > 0 {
        Some(string_of(t))
    } else {
        None
    }
}

fn read_first_value(h: &Option<String>) -> (r: Option<String>)
    ensures
        opt_text(r) == first_value(*h),
{
    match h {
        Some(s) => read_filled(before_char(&chars_of(s), ',')),
        None => None,
    }
}

/// The start of the URLs by which the client reaches the server: as the request says, as a
/// proxy in between says, or as it is laid down.
pub fn request_base_url(origin: &Origin, fallback: Option<&str>) -> (r: String)
    ensures
        r@ == base_url(
            *origin,
            match fallback {
                Some(f) => Some(f@),
                None => None,
            },
        ),
{
    let host = match read_first_value(&origin.forwarded_host) {
        Some(h) => Some(h),
        None => match &origin.host {
            Some(h) => read_filled(&chars_of(h)),
            None => None,
        },
    };
    match host {
        Some(h) => {
            let mut s = match read_first_value(&origin.forwarded_proto) {
                Some(p) => p,
                None => owned("http"),
            };
            push_text(&mut s, "://");
            push_text(&mut s, &h);
            s
        },
        None => match fallback {
            Some(f) => trim_end_matches(f, '/'),
            None => owned("http://localhost:8080"),
        },
    }
}

// --- What the client can play ----------------------------------------------------------------------

/// The texts that are not empty, once each, in alphabetical order.
pub fn keep_tags(v: Vec<String>) -> (r: Vec<String>)
    ensures
        texts(r@) == sorted(texts(v@).to_set().remove(Seq::empty())),
{
    let ghost all = texts(v@);
    let ghost items = v@;
    let mut out: Vec<String> = Vec::new();
    proof {
        assert(texts(out@).len() == 0);
    }
    for t in it: v
        invariant
            it.seq() == items,
            all == texts(items),
            forall|x: Seq<char>| #[trigger] texts(out@).contains(x) == (x.len() > 0 && all.take(it.index()).contains(x)),
    {
        let ghost was = texts(out@);
        let ghost k = it.index();
        let ghost w = t@;
        if !t.as_str().is_empty() {
            out.push(t);
        }
        proof {
            let now = texts(out@);
            let a = all.take(k);
            let b = all.take(k + 1);
            assert(all[k] == w);
            assert(b =~= a.push(w));
            assert forall|x: Seq<char>| #[trigger] now.contains(x) == (x.len() > 0 && b.contains(x)) by {
                assert(was.contains(x) == (x.len() > 0 && a.contains(x)));
                assert(b.contains(x) == (a.contains(x) || x == w)) by {
                    lemma_push_contains(a, w, x);
                }
                if w.len() > 0 {
                    assert(now =~= was.push(w));
                    lemma_push_contains(was, w, x);
                }
            }
        }
    }
    let ghost kept = texts(out@);
    let r = sort_dedup(out);
    proof {
        assert(all.take(all.len() as int) =~= all);
        let m = all.to_set().remove(Seq::empty());
        assert forall|x: Seq<char>| #[trigger] texts(r@).contains(x) == m.contains(x) by {
            assert(texts(r@).contains(x) == kept.contains(x));
            assert(all.to_set().contains(x) == all.contains(x));
            assert(x.len() == 0 ==> x =~= Seq::empty());
        }
        lemma_sorted(texts(r@), m);
    }
    r
}

proof fn lemma_push_contains<T>(s: Seq<T>, w: T, x: T)
    ensures
        s.push(w).contains(x) == (s.contains(x) || x == w),
{
    let p = s.push(w);
    if s.contains(x) {
        let i = choose|i: int| 0 <= i < s.len() && s[i] == x;
        assert(p[i] == x);
    }
    assert(p[s.len() as int] == w);
    if p.contains(x) && x != w {
        let i = choose|i: int| 0 <= i < p.len() && p[i] == x;
        assert(s[i] == x);
    }
}

/// The parts of a list with commas, in lower case and without white space.
pub open spec fn lower_parts(raw: Seq<char>) -> Seq<Seq<char>> {
    split(raw, ',').map_values(|p: Seq<char>| lowercase(trim(p)))
}

/// What the client says that it can play, in alphabetical order; none where it says nothing.
pub fn parse_client_caps(header: Option<&str>) -> (r: Option<Vec<String>>)
    ensures
        match (header, r) {
            (Some(h), Some(v)) => texts(v@) == sorted(lower_parts(h@).to_set().remove(Seq::empty())),
            (None, None) => true,
            _ => false,
        },
{
    let raw = match header {
        Some(h) => h,
        None => {
            return None;
        },
    };
    let parts = split_chars(&chars_of(raw), ',');
    let ghost all = views(parts@);
    let mut out: Vec<String> = Vec::new();
    let mut i: usize = 0;
    while i < parts.len()
        invariant
            i <= parts@.len(),
            all == views(parts@),
            texts(out@) == all.take(i as int).map_values(|p: Seq<char>| lowercase(trim(p))),
        decreases parts@.len() - i,
    {
        let ghost was = texts(out@);
        let t = to_lowercase(&string_of(trim_chars(&parts[i])));
        out.push(t);
        proof {
            assert(all[i as int] == parts@[i as int]@);
            assert(texts(out@) =~= was.push(t@));
            assert(texts(out@) =~= all.take(i + 1).map_values(|p: Seq<char>| lowercase(trim(p))));
        }
        i = i + 1;
    }
    proof {
        assert(all.take(i as int) =~= all);
        assert(texts(out@) =~= lower_parts(raw@));
    }
    Some(keep_tags(out))
}

// --- Guides --------------------------------------------------------------------------------------

/// The number of a station of RTP, by the key of its channel.
pub open spec fn station(key: Seq<char>) -> Option<u32> {
    if key == "antena1"@ {
        Some(1)
    } else if key == "antena2"@ {
        Some(2)
    } else if key == "antena3"@ {
        Some(3)
    } else if key == "rdpafrica"@ {
        Some(4)
    } else if key == "rdpinternacional"@ {
        Some(5)
    } else {
        None
    }
}

pub fn rtp_radio_code(channel_key: &str) -> (r: Option<u32>)
    ensures
        r == station(channel_key@),
{
    if str_eq(channel_key, "antena1") {
        Some(1)
    } else if str_eq(channel_key, "antena2") {
        Some(2)
    } else if str_eq(channel_key, "antena3") {
        Some(3)
    } else if str_eq(channel_key, "rdpafrica") {
        Some(4)
    } else if str_eq(channel_key, "rdpinternacional") {
        Some(5)
    } else {
        None
    }
}

/// The guide of a source on each host.
pub open spec fn source_guides(s: SourceView, hosts: Seq<Seq<char>>) -> Seq<EpgCandView> {
    hosts.map_values(
        |h: Seq<char>|
            EpgCandView::Xtream {
                stream_id: s.stream_id,
                host: h,
                priority: if s.tv_archive {
                    1
                } else {
                    0
                },
            },
    )
}

/// The guides of all sources on each host.
pub open spec fn tv_guides(s: Seq<SourceView>, hosts: Seq<Seq<char>>) -> Seq<EpgCandView>
    decreases s.len(),
{
    if s.len() == 0 {
        Seq::empty()
    } else {
        tv_guides(s.drop_last(), hosts) + source_guides(s.last(), hosts)
    }
}

/// Where the guide of a channel may be had: for television on all hosts that are not bad, for
/// the stations of RTP for today and tomorrow.
pub open spec fn guides(c: ChannelView, alive: Seq<Seq<char>>, bl: Blacklist, secs: int, now: i128) -> Seq<EpgCandView> {
    match c.kind {
        ChannelKind::Tv => tv_guides(c.sources, split_hosts(alive, bl, now, false)),
        ChannelKind::Radio => match station(c.key) {
            Some(code) => seq![
                EpgCandView::RtpRadio { code, date: rtp_date(secs) },
                EpgCandView::RtpRadio { code, date: rtp_date(secs + 86400) },
            ],
            None => Seq::empty(),
        },
    }
}

/// The hosts that are not bad.
pub fn fine_hosts(alive: &[String], bl: &Blacklist, now: i128) -> (r: Vec<String>)
    requires
        bl.wf(),
    ensures
        texts(r@) == split_hosts(texts(alive@), *bl, now, false),
{
    let ghost all = texts(alive@);
    let mut fine: Vec<String> = Vec::new();
    let mut i: usize = 0;
    while i < alive.len()
        invariant
            bl.wf(),
            i <= alive@.len(),
            all == texts(alive@),
            texts(fine@) == split_hosts(all.take(i as int), *bl, now, false),
        decreases alive@.len() - i,
    {
        let h = &alive[i];
        let ghost was = texts(fine@);
        proof {
            assert(all[i as int] == h@);
            assert(all.take(i + 1).drop_last() =~= all.take(i as int));
            assert(all.take(i + 1).last() == h@);
        }
        if !bl.is_host_bad(h, now) {
            fine.push(h.clone());
            proof {
                assert(texts(fine@) =~= was.push(h@));
            }
        }
        i = i + 1;
    }
    proof {
        assert(all.take(i as int) =~= all);
    }
    fine
}

fn list_tv_guides(channel: &CanonicalChannel, hosts: &[String]) -> (r: Vec<EpgCandidate>)
    ensures
        epg_views(r@) == tv_guides(channel@.sources, texts(hosts@)),
{
    let ghost sources = source_views(channel.sources@);
    let ghost names = texts(hosts@);
    let mut out: Vec<EpgCandidate> = Vec::new();
    let mut i: usize = 0;
    while i < channel.sources.len()
        invariant
            i <= channel.sources@.len(),
            sources == source_views(channel.sources@),
            names == texts(hosts@),
            epg_views(out@) == tv_guides(sources.take(i as int), names),
        decreases channel.sources@.len() - i,
    {
        let s = &channel.sources[i];
        let ghost start = epg_views(out@);
        proof {
            assert(sources[i as int] == s@);
            assert(sources.take(i + 1).drop_last() =~= sources.take(i as int));
            assert(sources.take(i + 1).last() == s@);
            assert(start + source_guides(s@, names).take(0) =~= start);
        }
        let priority: u8 = if s.tv_archive {
            1
        } else {
            0
        };
        let mut j: usize = 0;
        while j < hosts.len()
            invariant
                j <= hosts@.len(),
                names == texts(hosts@),
                priority == (if s.tv_archive {
                    1u8
                } else {
                    0u8
                }),
                epg_views(out@) == start + source_guides(s@, names).take(j as int),
            decreases hosts@.len() - j,
        {
            let ghost was = epg_views(out@);
            let c = EpgCandidate::Xtream { stream_id: s.stream_id, host: hosts[j].clone(), priority };
            let ghost v = c@;
            out.push(c);
            proof {
                assert(names[j as int] == hosts@[j as int]@);
                assert(epg_views(out@) =~= was.push(v));
                assert(epg_views(out@) =~= start + source_guides(s@, names).take(j + 1));
            }
            j = j + 1;
        }
        proof {
            assert(source_guides(s@, names).take(j as int) =~= source_guides(s@, names));
        }
        i = i + 1;
    }
    proof {
        assert(sources.take(i as int) =~= sources);
    }
    out
}

/// Where the guide of a channel may be had; an error for television without a host that is
/// alive. The day is that of `secs`.
pub fn epg_candidates(channel: &CanonicalChannel, alive: &[String], blacklist: &Blacklist, secs: i64, now: i128) -> (r: Result<
    Vec<EpgCandidate>,
    (),
>)
    requires
        blacklist.wf(),
        in_calendar(secs as int),
        in_calendar(secs + 86400),
    ensures
        r is Err <==> channel.kind == ChannelKind::Tv && alive@.len() == 0,
        r matches Ok(v) ==> epg_views(v@) == guides(channel@, texts(alive@), *blacklist, secs as int, now),
{
    match channel.kind {
        ChannelKind::Tv => {
            if alive.len() == 0 {
                return Err(());
            }
            Ok(list_tv_guides(channel, &fine_hosts(alive, blacklist, now)))
        },
        ChannelKind::Radio => {
            let out = match rtp_radio_code(&channel.key) {
                Some(code) => vec![
                    EpgCandidate::RtpRadio { code, date: format_rtp_date(secs) },
                    EpgCandidate::RtpRadio { code, date: format_rtp_date(secs + 86400) },
                ],
                None => Vec::new(),
            };
            proof {
                assert(epg_views(out@) =~= guides(channel@, texts(alive@), *blacklist, secs as int, now));
            }
            Ok(out)
        },
    }
}

// --- What clients report ---------------------------------------------------------------------------

/// What a client reports.
#[derive(Debug, Clone, Copy, PartialEq, Eq, Structural)]
pub enum FeedbackKind {
    Fail,
    /// The user likes another stream better.
    Demote,
}

impl Default for FeedbackKind {
    fn default() -> (r: Self)
        ensures
            r == FeedbackKind::Fail,
    {
        FeedbackKind::Fail
    }
}

/// What a client reports of a play.
#[derive(Debug)]
pub struct FeedbackBody {
    pub kind: FeedbackKind,
    pub error: Option<String>,
    pub play_id: Option<String>,
    /// Whether playback had begun: `pre-canplay` or `post-canplay`.
    pub phase: Option<String>,
}

impl Default for FeedbackBody {
    fn default() -> (r: Self)
        ensures
            r.kind == FeedbackKind::Fail,
            r.error is None,
            r.play_id is None,
            r.phase is None,
    {
        FeedbackBody { kind: FeedbackKind::Fail, error: None, play_id: None, phase: None }
    }
}

/// The URL that a report is about: the one that the play got, where the play is of the
/// channel.
pub open spec fn reported_url(s: PlaySessions, pid: Option<String>, key: Seq<char>, now: u64) -> Option<Seq<char>> {
    match pid {
        Some(p) => match session_at(s@, p@, now) {
            Some((url, channel)) => if channel == key {
                Some(url)
            } else {
                None
            },
            None => None,
        },
        None => None,
    }
}

/// The report counts against the URL: playback had begun, or the user likes another better.
pub open spec fn counts(body: FeedbackBody) -> bool {
    body.kind == FeedbackKind::Demote || (body.phase matches Some(p) && p@ == "post-canplay"@)
}

/// Takes a client's report: the URL that the play got sinks one step, where the report counts
/// against it. The host is not blamed.
pub fn feedback(
    sessions: &PlaySessions,
    blacklist: &mut Blacklist,
    key: &str,
    body: &FeedbackBody,
    now: u64,
    at: i128,
) -> (r: Option<String>)
    requires
        old(blacklist).wf(),
    ensures
        opt_text(r) == reported_url(*sessions, body.play_id, key@, now),
        final(blacklist).wf(),
        final(blacklist).config == old(blacklist).config,
        r is None || !counts(*body) ==> *final(blacklist) == *old(blacklist),
        r is Some && counts(*body) ==> final(blacklist).dirty && final(blacklist)@ == (BlacklistView {
            urls: old(blacklist)@.urls.insert(r->0@, failed(state_of(old(blacklist)@.urls, r->0@), at)),
            hosts: old(blacklist)@.hosts,
            good: old(blacklist)@.good,
        }),
{
    let url = match &body.play_id {
        Some(pid) => match sessions.lookup(pid, now) {
            Some((url, channel)) => {
                if !str_eq(&channel, key) {
                    return None;
                }
                url
            },
            None => {
                return None;
            },
        },
        None => {
            return None;
        },
    };
    let begun = match &body.phase {
        Some(p) => str_eq(p, "post-canplay"),
        None => false,
    };
    let kind = if body.kind == FeedbackKind::Demote || begun {
        FailureKind::ClientPostCanplay
    } else {
        FailureKind::ClientPreCanplay
    };
    blacklist.note_failure(&url, kind, at);
    Some(url)
}

/// What a client says while playback goes well.
#[derive(Debug)]
pub struct HeartbeatBody {
    pub play_id: Option<String>,
}

impl Default for HeartbeatBody {
    fn default() -> (r: Self)
        ensures
            r.play_id is None,
    {
        HeartbeatBody { play_id: None }
    }
}

/// The URL that goes well: the one that the play got.
pub open spec fn beating_url(s: PlaySessions, pid: Option<String>, now: u64) -> Option<Seq<char>> {
    match pid {
        Some(p) => if trim(p@).len() == 0 {
            None
        } else {
            match session_at(s@, p@, now) {
                Some((url, channel)) => Some(url),
                None => None,
            }
        },
        None => None,
    }
}

/// Takes note of clean playback of the URL that the play got.
pub fn heartbeat(sessions: &PlaySessions, blacklist: &mut Blacklist, body: &HeartbeatBody, now: u64, at: i128) -> (r: Option<
    String,
>)
    requires
        old(blacklist).wf(),
    ensures
        opt_text(r) == beating_url(*sessions, body.play_id, now),
        final(blacklist).wf(),
        final(blacklist).config == old(blacklist).config,
        final(blacklist)@.hosts == old(blacklist)@.hosts,
        final(blacklist)@.good == old(blacklist)@.good,
        r is None || !old(blacklist)@.urls.contains_key(r->0@) ==> *final(blacklist) == *old(blacklist),
        r is Some && old(blacklist)@.urls.contains_key(r->0@) ==> final(blacklist).dirty && final(blacklist)@.urls == old(
            blacklist)@.urls.insert(r->0@, beaten(old(blacklist)@.urls[r->0@], old(blacklist).config, at)),
{
    let pid = match &body.play_id {
        Some(p) => p,
        None => {
            return None;
        },
    };
    if trim_chars(&chars_of(pid)).len() == 0 {
        return None;
    }
    match sessions.lookup(pid, now) {
        Some((url, channel)) => {
            blacklist.note_heartbeat(&url, at);
            Some(url)
        },
        None => None,
    }
}

// --- Candidates ------------------------------------------------------------------------------------

/// A candidate with what is known of it.
#[derive(Debug)]
pub struct CandidateDto {
    pub url: String,
    pub host: String,
    pub stream_id: u64,
    pub rank_pos: usize,
    pub cool_off_step: u8,
    pub lkg_age_secs: Option<u64>,
    pub measured: Option<MeasuredQuality>,
}

/// The contents of a `CandidateDto`.
pub struct CandidateDtoView {
    pub url: Seq<char>,
    pub host: Seq<char>,
    pub stream_id: u64,
    pub rank_pos: nat,
    pub cool_off_step: u8,
    pub lkg_age_secs: Option<u64>,
    pub measured: Option<QualityView>,
}

impl View for CandidateDto {
    type V = CandidateDtoView;

    open spec fn view(&self) -> CandidateDtoView {
        CandidateDtoView {
            url: self.url@,
            host: self.host@,
            stream_id: self.stream_id,
            rank_pos: self.rank_pos as nat,
            cool_off_step: self.cool_off_step,
            lkg_age_secs: self.lkg_age_secs,
            measured: match self.measured {
                Some(q) => Some(q@),
                None => None,
            },
        }
    }
}

/// What is known of candidate `i`.
pub open spec fn told(world: World, key: Seq<char>, c: CandView, i: nat) -> CandidateDtoView {
    CandidateDtoView {
        url: c.url,
        host: c.host,
        stream_id: c.stream_id,
        rank_pos: i,
        cool_off_step: state_of(world.blacklist@.urls, c.url).cool_off_step,
        lkg_age_secs: good_age(world.blacklist@.good, key, c.url, world.now),
        measured: quality(window(world.measured@, c.stream_id, c.host)),
    }
}

/// The candidates for a channel with what is known of them, the best first.
pub fn list_candidates(world: &World<'_>, channel: &CanonicalChannel) -> (r: Vec<CandidateDto>)
    requires
        world.wf(),
    ensures
        r@.len() == world.candidates(channel@, None).len(),
        forall|i: int|
            0 <= i < r@.len() ==> (#[trigger] r@[i])@ == told(*world, channel.key@, world.candidates(channel@, None)[i], i as nat),
{
    let cs = build_candidates(world, channel, None);
    let ghost all = cand_views(cs@);
    let mut out: Vec<CandidateDto> = Vec::new();
    let mut i: usize = 0;
    while i < cs.len()
        invariant
            i <= cs@.len(),
            out@.len() == i,
            all == cand_views(cs@),
            forall|j: int| 0 <= j < i ==> (#[trigger] out@[j])@ == told(*world, channel.key@, all[j], j as nat),
        decreases cs@.len() - i,
    {
        let c = &cs[i];
        proof {
            assert(all[i as int] == c@);
        }
        out.push(
            CandidateDto {
                url: c.url.clone(),
                host: c.host.clone(),
                stream_id: c.stream_id,
                rank_pos: i,
                cool_off_step: world.blacklist.cool_off_penalty(&c.url) as u8,
                lkg_age_secs: world.blacklist.last_known_good_age(&channel.key, &c.url, world.now),
                measured: world.measured.get(c.stream_id, &c.host),
            },
        );
        i = i + 1;
    }
    out
}

// --- Probes ------------------------------------------------------------------------------------------

/// A channel with which to find out whether a client can play channels of the kind: for radio, one
/// that is played as a playlist.
pub open spec fn suits_probe(c: ChannelView, kind: ChannelKind) -> bool {
    c.kind == kind && (kind == ChannelKind::Radio ==> (first_format(c.sources) matches Some(f) ==> f == RadioFormat::Hls))
}

pub fn probe_match(channel: &CanonicalChannel, kind: ChannelKind) -> (r: bool)
    ensures
        r == suits_probe(channel@, kind),
{
    if channel.kind != kind {
        return false;
    }
    if kind == ChannelKind::Tv {
        return true;
    }
    match radio_format_of(channel) {
        Some(f) => f == RadioFormat::Hls,
        None => true,
    }
}

/// The source may well be had: its own URL is not in deep cool-off, or the host that listed it is
/// alive and not bad, or some host is.
pub open spec fn source_lives(s: SourceView, alive: Seq<Seq<char>>, bl: Blacklist, now: i128) -> bool {
    match s.direct_source {
        Some(url) => state_of(bl@.urls, url).cool_off_step < FAILED_DIAG_STEP,
        None => if s.origin_host.len() > 0 {
            alive.contains(s.origin_host) && !host_bad(bl@.hosts, bl.config, s.origin_host, now)
        } else {
            exists|i: int| 0 <= i < alive.len() && !host_bad(bl@.hosts, bl.config, #[trigger] alive[i], now)
        },
    }
}

/// Some source of the channel may well be had.
pub open spec fn channel_lives(c: ChannelView, alive: Seq<Seq<char>>, bl: Blacklist, now: i128) -> bool {
    exists|j: int| 0 <= j < c.sources.len() && source_lives(#[trigger] c.sources[j], alive, bl, now)
}

pub fn channel_has_alive_source(channel: &CanonicalChannel, alive: &[String], blacklist: &Blacklist, now: i128) -> (r: bool)
    requires
        blacklist.wf(),
    ensures
        r == channel_lives(channel@, texts(alive@), *blacklist, now),
{
    let ghost names = texts(alive@);
    let ghost sources = source_views(channel.sources@);
    let mut j: usize = 0;
    while j < channel.sources.len()
        invariant
            blacklist.wf(),
            j <= channel.sources@.len(),
            names == texts(alive@),
            sources == source_views(channel.sources@),
            forall|k: int| 0 <= k < j ==> !source_lives(#[trigger] sources[k], names, *blacklist, now),
        decreases channel.sources@.len() - j,
    {
        let s = &channel.sources[j];
        proof {
            assert(sources[j as int] == s@);
        }
        let lives = match &s.direct_source {
            Some(url) => !blacklist.is_url_failed(url),
            None => if !s.origin_host.as_str().is_empty() {
                has_text(alive, &s.origin_host) && !blacklist.is_host_bad(&s.origin_host, now)
            } else {
                let mut some = false;
                let mut i: usize = 0;
                while i < alive.len()
                    invariant
                        blacklist.wf(),
                        i <= alive@.len(),
                        names == texts(alive@),
                        some == exists|k: int|
                            0 <= k < i && !host_bad(blacklist@.hosts, blacklist.config, #[trigger] names[k], now),
                    decreases alive@.len() - i,
                {
                    proof {
                        assert(names[i as int] == alive@[i as int]@);
                    }
                    if !blacklist.is_host_bad(&alive[i], now) {
                        some = true;
                    }
                    i = i + 1;
                }
                some
            },
        };
        if lives {
            proof {
                assert(source_lives(channel@.sources[j as int], names, *blacklist, now));
            }
            return true;
        }
        j = j + 1;
    }
    false
}

/// Of the first `n` channels, the best-placed one that suits and, where `living` is set, may well
/// be had; of equally placed ones the first.
pub open spec fn best_probe(
    cs: Seq<ChannelView>,
    kind: ChannelKind,
    curation: Curation,
    alive: Seq<Seq<char>>,
    bl: Blacklist,
    now: i128,
    living: bool,
    n: int,
) -> Option<int>
    decreases n,
{
    if n <= 0 {
        None
    } else {
        let before = best_probe(cs, kind, curation, alive, bl, now, living, n - 1);
        let c = cs[n - 1];
        if suits_probe(c, kind) && (living ==> channel_lives(c, alive, bl, now)) {
            match before {
                Some(b) => if place_or_last(curation, c.key) < place_or_last(curation, cs[b].key) {
                    Some(n - 1)
                } else {
                    before
                },
                None => Some(n - 1),
            }
        } else {
            before
        }
    }
}

fn find_probe(
    snap: &CatalogSnapshot,
    kind: ChannelKind,
    curation: &Curation,
    alive: &[String],
    blacklist: &Blacklist,
    now: i128,
    living: bool,
) -> (r: Option<usize>)
    requires
        blacklist.wf(),
    ensures
        match r {
            Some(i) => i < snap.channels@.len() && best_probe(
                channel_views(snap.channels@),
                kind,
                *curation,
                texts(alive@),
                *blacklist,
                now,
                living,
                snap.channels@.len() as int,
            ) == Some(i as int),
            None => best_probe(
                channel_views(snap.channels@),
                kind,
                *curation,
                texts(alive@),
                *blacklist,
                now,
                living,
                snap.channels@.len() as int,
            ) is None,
        },
{
    let ghost cs = channel_views(snap.channels@);
    let mut best: Option<usize> = None;
    let mut i: usize = 0;
    while i < snap.channels.len()
        invariant
            blacklist.wf(),
            i <= snap.channels@.len(),
            cs == channel_views(snap.channels@),
            match best {
                Some(b) => b < i && best_probe(cs, kind, *curation, texts(alive@), *blacklist, now, living, i as int) == Some(
                    b as int,
                ),
                None => best_probe(cs, kind, *curation, texts(alive@), *blacklist, now, living, i as int) is None,
            },
        decreases snap.channels@.len() - i,
    {
        let c = &snap.channels[i];
        proof {
            assert(cs[i as int] == c@);
        }
        if probe_match(c, kind) && (!living || channel_has_alive_source(c, alive, blacklist, now)) {
            match best {
                Some(b) => {
                    proof {
                        assert(cs[b as int] == snap.channels@[b as int]@);
                    }
                    if curation.rank_of(&c.key).unwrap_or(usize::MAX) < curation.rank_of(&snap.channels[b].key).unwrap_or(
                        usize::MAX,
                    ) {
                        best = Some(i);
                    }
                },
                None => {
                    best = Some(i);
                },
            }
        }
        i = i + 1;
    }
    best
}

/// The channel with which to find out whether a client can play channels of the kind: the
/// best-placed one that may well be had, else the best-placed one.
pub fn pick_kind_probe(
    snap: &CatalogSnapshot,
    kind: ChannelKind,
    curation: &Curation,
    alive: &[String],
    blacklist: &Blacklist,
    now: i128,
) -> (r: Option<String>)
    requires
        blacklist.wf(),
    ensures
        ({
            let cs = channel_views(snap.channels@);
            let n = cs.len() as int;
            opt_text(r) == match best_probe(cs, kind, *curation, texts(alive@), *blacklist, now, true, n) {
                Some(i) => Some(cs[i].key),
                None => match best_probe(cs, kind, *curation, texts(alive@), *blacklist, now, false, n) {
                    Some(i) => Some(cs[i].key),
                    None => None,
                },
            }
        }),
{
    let ghost cs = channel_views(snap.channels@);
    let i = match find_probe(snap, kind, curation, alive, blacklist, now, true) {
        Some(i) => Some(i),
        None => find_probe(snap, kind, curation, alive, blacklist, now, false),
    };
    match i {
        Some(i) => {
            proof {
                assert(cs[i as int] == snap.channels@[i as int]@);
            }
            Some(snap.channels[i].key.clone())
        },
        None => None,
    }
}

/// How long a probe waits for the channels at most, in milliseconds.
pub const PROBE_WAIT_MILLIS: u64 = 8000;

/// How long a probe waits before it looks for the channels again, in milliseconds.
pub const PROBE_LOOK_MILLIS: u64 = 200;

/// How many milliseconds a probe that has waited so long waits on; none where it goes ahead.
pub fn probe_wait(ready: bool, waited_ms: u64) -> (r: Option<u64>)
    ensures
        r == if ready || waited_ms >= PROBE_WAIT_MILLIS {
            None
        } else {
            Some(PROBE_LOOK_MILLIS)
        },
{
    if ready || waited_ms >= PROBE_WAIT_MILLIS {
        None
    } else {
        Some(PROBE_LOOK_MILLIS)
    }
}

/// Some channel suits a probe of the kind.
pub fn can_probe(snap: &CatalogSnapshot, kind: ChannelKind) -> (r: bool)
    ensures
        r == exists|i: int| 0 <= i < snap.channels@.len() && suits_probe((#[trigger] snap.channels@[i])@, kind),
{
    let mut i: usize = 0;
    while i < snap.channels.len()
        invariant
            i <= snap.channels@.len(),
            forall|j: int| 0 <= j < i ==> !suits_probe((#[trigger] snap.channels@[j])@, kind),
        decreases snap.channels@.len() - i,
    {
        if probe_match(&snap.channels[i], kind) {
            return true;
        }
        i = i + 1;
    }
    false
}

/// The URL of a probe of a channel.
pub open spec fn probe_link(base: Seq<char>, key: Seq<char>) -> Seq<char> {
    trim_end_char(base, '/') + "/play/"@ + key + ".m3u8?probe=1"@
}

pub fn probe_url(base: &str, key: &str) -> (r: String)
    ensures
        r@ == probe_link(base@, key@),
{
    let mut s = trim_end_matches(base, '/');
    push_text(&mut s, "/play/");
    push_text(&mut s, key);
    push_text(&mut s, ".m3u8?probe=1");
    s
}

/// A probe that may not be there.
#[derive(Debug)]
pub struct ConditionalProbeDto {
    pub available: bool,
    pub url: Option<String>,
}

/// The URL of a probe of a stream that uses more reference frames than its level allows.
pub fn probe_h264_excess_refs_json(
    scope: &Scope<'_>,
    snap: &CatalogSnapshot,
    curation: &Curation,
    per_variant: bool,
    base: &str,
) -> (r: ConditionalProbeDto)
    requires
        scope.wf(),
    ensures
        r.available == (r.url is Some),
        ({
            let cs = channel_views(snap.channels@);
            opt_text(r.url) == match variant_pick(*scope, cs, *curation, cs.len() as int, "h264_excess_refs"@) {
                Some(b) => if per_variant {
                    Some(
                        probe_link(base@, cs[b.0].key) + "&probe_stream_id="@ + decimal(
                            cs[b.0].sources[b.1].stream_id as nat,
                        ),
                    )
                } else {
                    None
                },
                None => None,
            }
        }),
{
    if !per_variant {
        return ConditionalProbeDto { available: false, url: None };
    }
    match pick_probe_variant(scope, snap, curation, "h264_excess_refs") {
        Some((key, stream_id)) => {
            let mut url = probe_url(base, &key);
            push_text(&mut url, "&probe_stream_id=");
            push_decimal(&mut url, stream_id);
            ConditionalProbeDto { available: true, url: Some(url) }
        },
        None => ConditionalProbeDto { available: false, url: None },
    }
}

// --- The page --------------------------------------------------------------------------------------

/// Where the page takes the script of the player.
pub const PLAYER_MARKER: &'static str = "<!--PLAYER_BUNDLE_MARKER-->";

/// The script of the player.
pub const PLAYER_SCRIPT: &'static str = "<script src=\"lib/hls.min.js\" defer></script>";

/// The client is a webOS television, which needs no script to play.
pub open spec fn is_webos(user_agent: Seq<char>) -> bool {
    contains(ascii_lowercase(user_agent), "web0s"@) || contains(ascii_lowercase(user_agent), "webos"@)
}

/// The page for a client.
pub fn serve_index(page: &str, user_agent: &str) -> (r: String)
    ensures
        r@ == replaced_text(
            page@,
            PLAYER_MARKER@,
            if is_webos(user_agent@) {
                ""@
            } else {
                PLAYER_SCRIPT@
            },
        ),
{
    let ua = str_lower(user_agent);
    let script = if str_has(&ua, "web0s") || str_has(&ua, "webos") {
        ""
    } else {
        PLAYER_SCRIPT
    };
    proof {
        reveal_strlit("<!--PLAYER_BUNDLE_MARKER-->");
    }
    replace_text(page, PLAYER_MARKER, script)
}

proof fn lemma_no_comma(s: Seq<char>)
    requires
        !s.contains(','),
    ensures
        before(s, ',') == s,
{
    lemma_index_or_len(s, ',');
    if index_or_len(s, ',') < s.len() {
        assert(s.contains(s[index_or_len(s, ',')]));
    }
    assert(s.take(s.len() as int) =~= s);
}

proof fn lemma_first_of_list(s: Seq<char>, rest: Seq<char>)
    requires
        !s.contains(','),
    ensures
        before(s + seq![','] + rest, ',') == s,
{
    let all = s + seq![','] + rest;
    lemma_index_or_len(all, ',');
    let i = index_or_len(all, ',');
    assert(all[s.len() as int] == ',');
    if i < s.len() {
        assert(all[i] == s[i]);
        assert(s.contains(s[i]));
    }
    assert(i == s.len());
    assert(all.take(i) =~= s);
}

/// The server is where the client says that it asked for it: the first host that was forwarded,
/// by the first protocol that was; else the host of the request, by HTTP; else what is laid down.
pub proof fn law_links_lead_to_where_the_client_asked(
    o: Origin,
    fallback: Seq<char>,
    host: Seq<char>,
    proto: Seq<char>,
    more: Seq<char>,
)
    requires
        !host.contains(','),
        !proto.contains(','),
        trim(host) == host && host.len() > 0,
        trim(proto) == proto && proto.len() > 0,
        fallback.len() > 0 ==> fallback.last() != '/',
    ensures
        (opt_text(o.forwarded_host) == Some(host) && opt_text(o.forwarded_proto) == Some(proto)) ==> base_url(
            o,
            Some(fallback),
        ) == proto + "://"@ + host,
        (opt_text(o.forwarded_host) == Some(host + seq![','] + more) && opt_text(o.forwarded_proto) == Some(
            proto + seq![','] + more,
        )) ==> base_url(o, Some(fallback)) == proto + "://"@ + host,
        (o.forwarded_host is None && o.forwarded_proto is None && opt_text(o.host) == Some(host)) ==> base_url(
            o,
            Some(fallback),
        ) == "http"@ + "://"@ + host,
        (o.forwarded_host is None && o.host is None) ==> base_url(o, Some(fallback)) == fallback && base_url(o, None)
            == "http://localhost:8080"@,
{
    lemma_no_comma(host);
    lemma_no_comma(proto);
    lemma_first_of_list(host, more);
    lemma_first_of_list(proto, more);
}

/// The guide of television is looked for with every source on every host that is alive and not
/// bad, and with those that keep recordings first.
pub proof fn law_guides_are_sought_on_good_hosts(
    c: ChannelView,
    alive: Seq<Seq<char>>,
    bl: Blacklist,
    secs: int,
    now: i128,
    i: int,
    h: Seq<char>,
)
    requires
        c.kind == ChannelKind::Tv,
        0 <= i < c.sources.len(),
        alive.contains(h),
        !host_bad(bl@.hosts, bl.config, h, now),
    ensures
        c.sources[i].tv_archive ==> guides(c, alive, bl, secs, now).contains(
            EpgCandView::Xtream { stream_id: c.sources[i].stream_id, host: h, priority: 1 },
        ),
        !c.sources[i].tv_archive ==> guides(c, alive, bl, secs, now).contains(
            EpgCandView::Xtream { stream_id: c.sources[i].stream_id, host: h, priority: 0 },
        ),
{
    let hosts = split_hosts(alive, bl, now, false);
    lemma_split_hosts(alive, bl, now, false, h);
    let k = choose|k: int| 0 <= k < hosts.len() && hosts[k] == h;
    lemma_source_has_guide(c.sources, hosts, i, k);
}

proof fn lemma_source_has_guide(s: Seq<SourceView>, hosts: Seq<Seq<char>>, i: int, k: int)
    requires
        0 <= i < s.len(),
        0 <= k < hosts.len(),
    ensures
        tv_guides(s, hosts).contains(source_guides(s[i], hosts)[k]),
        tv_guides(s, hosts).len() == s.len() * hosts.len(),
    decreases s.len(),
{
    let t = s.drop_last();
    let a = tv_guides(t, hosts);
    let b = source_guides(s.last(), hosts);
    lemma_guides_len(t, hosts);
    assert(s.len() * hosts.len() == t.len() * hosts.len() + hosts.len()) by (nonlinear_arith)
        requires
            s.len() == t.len() + 1,
    ;
    if i < t.len() {
        lemma_source_has_guide(t, hosts, i, k);
        let x = source_guides(t[i], hosts)[k];
        let j = choose|j: int| 0 <= j < a.len() && a[j] == x;
        assert((a + b)[j] == x);
    } else {
        assert((a + b)[a.len() + k] == b[k]);
    }
}

proof fn lemma_guides_len(s: Seq<SourceView>, hosts: Seq<Seq<char>>)
    ensures
        tv_guides(s, hosts).len() == s.len() * hosts.len(),
    decreases s.len(),
{
    if s.len() > 0 {
        lemma_guides_len(s.drop_last(), hosts);
        assert(s.len() * hosts.len() == (s.len() - 1) * hosts.len() + hosts.len()) by (nonlinear_arith);
    } else {
        assert(s.len() * hosts.len() == 0) by (nonlinear_arith)
            requires
                s.len() == 0,
        ;
    }
}

/// Bad hosts are not asked for guides.
pub proof fn law_bad_hosts_are_not_asked_for_guides(
    c: ChannelView,
    alive: Seq<Seq<char>>,
    bl: Blacklist,
    secs: int,
    now: i128,
    k: int,
)
    requires
        c.kind == ChannelKind::Tv,
        0 <= k < guides(c, alive, bl, secs, now).len(),
    ensures
        guides(c, alive, bl, secs, now)[k] matches EpgCandView::Xtream { host, .. } && alive.contains(host) && !host_bad(
            bl@.hosts,
            bl.config,
            host,
            now,
        ),
{
    let hosts = split_hosts(alive, bl, now, false);
    lemma_guide_has_host(c.sources, hosts, k);
    if let EpgCandView::Xtream { host, stream_id, priority } = guides(c, alive, bl, secs, now)[k] {
        lemma_split_hosts(alive, bl, now, false, host);
    }
}

proof fn lemma_guide_has_host(s: Seq<SourceView>, hosts: Seq<Seq<char>>, k: int)
    requires
        0 <= k < tv_guides(s, hosts).len(),
    ensures
        tv_guides(s, hosts)[k] matches EpgCandView::Xtream { host, .. } && hosts.contains(host),
    decreases s.len(),
{
    let a = tv_guides(s.drop_last(), hosts);
    if k < a.len() {
        lemma_guide_has_host(s.drop_last(), hosts, k);
    } else {
        assert(hosts.contains(hosts[k - a.len()]));
    }
}

/// The guide of a station of RTP is asked for today and for tomorrow; other radio has none.
pub proof fn law_stations_are_asked_for_two_days(
    c: ChannelView,
    alive: Seq<Seq<char>>,
    bl: Blacklist,
    secs: int,
    now: i128,
    code: u32,
)
    requires
        c.kind == ChannelKind::Radio,
    ensures
        station(c.key) == Some(code) ==> guides(c, alive, bl, secs, now) == seq![
            EpgCandView::RtpRadio { code, date: rtp_date(secs) },
            EpgCandView::RtpRadio { code, date: rtp_date(secs + 24 * 60 * 60) },
        ],
        station(c.key) is None ==> guides(c, alive, bl, secs, now).len() == 0,
{
}

/// A report is about the URL that the play got, and only where the play is of the channel.
pub proof fn law_reports_are_about_plays(s: PlaySessions, pid: String, key: Seq<char>, other: Seq<char>, url: Seq<char>, now: u64)
    requires
        session_at(s@, pid@, now) == Some((url, key)),
        other != key,
    ensures
        reported_url(s, Some(pid), key, now) == Some(url),
        reported_url(s, Some(pid), other, now) is None,
        reported_url(s, None, key, now) is None,
        trim(pid@).len() > 0 ==> beating_url(s, Some(pid), now) == Some(url),
        trim(pid@).len() == 0 ==> beating_url(s, Some(pid), now) is None,
        beating_url(s, None, now) is None,
{
}

/// A failure counts once playback has begun; what the user likes less always does.
pub proof fn law_failures_before_playback_do_not_count(body: FeedbackBody)
    ensures
        body.kind == FeedbackKind::Demote ==> counts(body),
        body.kind == FeedbackKind::Fail && body.phase is None ==> !counts(body),
        body.kind == FeedbackKind::Fail ==> (body.phase matches Some(p) ==> counts(body) == (p@ == "post-canplay"@)),
{
}

/// A candidate is told of by its URL, host, stream and place, with what the blacklist and the
/// measurements say of it.
pub proof fn law_candidates_are_told_of(world: World, key: Seq<char>, c: CandView, i: nat)
    ensures
        ({
            let d = told(world, key, c, i);
            &&& d.url == c.url
            &&& d.host == c.host
            &&& d.stream_id == c.stream_id
            &&& d.rank_pos == i
            &&& d.cool_off_step == state_of(world.blacklist@.urls, c.url).cool_off_step
            &&& d.measured == quality(window(world.measured@, c.stream_id, c.host))
            &&& world.blacklist@.good.contains_key(key) && world.blacklist@.good[key].0 != c.url ==> d.lkg_age_secs is None
            &&& !world.blacklist@.good.contains_key(key) ==> d.lkg_age_secs is None
        }),
{
}

/// A source may be had by its own URL while that is not in deep cool-off; without one, on the host
/// that listed it while that is alive and not bad, or on any such host where none is named.
pub proof fn law_sources_live_by_their_hosts(s: SourceView, alive: Seq<Seq<char>>, bl: Blacklist, now: i128, h: Seq<char>)
    ensures
        s.direct_source is None && s.origin_host.len() > 0 && !alive.contains(s.origin_host) ==> !source_lives(
            s,
            alive,
            bl,
            now,
        ),
        s.direct_source is None && s.origin_host == h && host_bad(bl@.hosts, bl.config, h, now) && h.len() > 0
            ==> !source_lives(s, alive, bl, now),
        s.direct_source is None && (s.origin_host == h || s.origin_host.len() == 0) && alive.contains(h) && !host_bad(
            bl@.hosts,
            bl.config,
            h,
            now,
        ) ==> source_lives(s, alive, bl, now),
        s.direct_source is None && alive.len() == 0 ==> !source_lives(s, alive, bl, now),
        (s.direct_source matches Some(u) && !bl@.urls.contains_key(u)) ==> source_lives(s, alive, bl, now),
        (s.direct_source matches Some(u) && state_of(bl@.urls, u).cool_off_step < 3) ==> source_lives(s, alive, bl, now),
        (s.direct_source matches Some(u) && state_of(bl@.urls, u).cool_off_step >= 3) ==> !source_lives(s, alive, bl, now),
{
    if alive.contains(h) {
        let k = choose|k: int| 0 <= k < alive.len() && alive[k] == h;
        assert(alive[k] == h);
    }
}

/// A probe is made with the best-placed channel that suits, and one is found where there is any.
pub proof fn law_probes_use_the_best_placed_channel(
    cs: Seq<ChannelView>,
    kind: ChannelKind,
    curation: Curation,
    alive: Seq<Seq<char>>,
    bl: Blacklist,
    now: i128,
    living: bool,
    n: int,
)
    requires
        0 <= n <= cs.len(),
    ensures
        match best_probe(cs, kind, curation, alive, bl, now, living, n) {
            Some(b) => {
                &&& 0 <= b < n
                &&& cs[b].kind == kind
                &&& living ==> channel_lives(cs[b], alive, bl, now)
                &&& forall|j: int|
                    0 <= j < n && suits_probe(#[trigger] cs[j], kind) && (living ==> channel_lives(cs[j], alive, bl, now))
                        ==> place_or_last(curation, cs[b].key) <= place_or_last(curation, cs[j].key)
            },
            None => forall|j: int|
                0 <= j < n ==> !(suits_probe(#[trigger] cs[j], kind) && (living ==> channel_lives(cs[j], alive, bl, now))),
        },
    decreases n,
{
    if n > 0 {
        law_probes_use_the_best_placed_channel(cs, kind, curation, alive, bl, now, living, n - 1);
    }
}

/// Television is probed with television; radio with radio that comes as a playlist.
pub proof fn law_probes_suit_their_kind(c: ChannelView)
    ensures
        suits_probe(c, ChannelKind::Tv) <==> c.kind == ChannelKind::Tv,
        c.kind == ChannelKind::Tv ==> !suits_probe(c, ChannelKind::Radio),
        c.kind == ChannelKind::Radio && c.sources.len() > 0 && c.sources[0].radio_format == Some(RadioFormat::Hls)
            ==> suits_probe(c, ChannelKind::Radio),
        c.sources.len() > 0 && c.sources[0].radio_format == Some(RadioFormat::Mp3) ==> !suits_probe(c, ChannelKind::Radio),
        c.kind == ChannelKind::Radio && c.sources.len() == 0 ==> suits_probe(c, ChannelKind::Radio),
{
}

} // verus!
