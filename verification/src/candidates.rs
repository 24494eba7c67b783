//! The URLs to try for a channel, the best first.
use vstd::prelude::*;
use vstd::utf8::{decode_utf8, valid_utf8};
use crate::blacklist::{Blacklist, good_age, host_bad, state_of};
use crate::canonical::{CanonicalChannel, CanonicalSource, ChannelView, SourceView, source_views};
use crate::caps_cache::{Scope, host_eligible_v2, variant_caps_required};
use crate::measured::{MeasuredStore, quality, window};
use crate::order::{Ranked, ascending, is_ranked, law_ranked, lemma_ranked_by_map_on, lemma_ranked_contains};
use crate::order::{lemma_ranked_distinct, lex_lt, own_rank, ranked_by, sort_ranked};
use crate::outside::{decode_url_base64, from_utf8, opt_bytes, url_base64_decoded};
use crate::play_log::{PlayEvent, event_views};
use crate::probe::{derive_host, host_key};
use crate::proxy::{CandView, Candidate, RadioRankKey, TvRankKey, audio_channels_value, audio_kbps_value};
use crate::proxy::{audio_sample_rate_value, bonus, bpp_value, cand_views, codec_value, fps_value, hdr_value, lemma_pixels};
use crate::proxy::{logged_outcomes, radio_rank, source_rank_key_radio, source_rank_key_tv, success_value, tv_rank};
use crate::text::{has_text, owned, texts};
use crate::xtream::{ChannelKind, XtreamClient};

verus! {

/// What the choice of URLs goes by.
pub struct World<'a> {
    pub client: &'a XtreamClient,
    pub measured: &'a MeasuredStore,
    pub blacklist: &'a Blacklist,
    /// The hosts that are alive, the fastest first.
    pub alive: &'a [String],
    /// The plays so far, the latest first.
    pub log: &'a [PlayEvent],
    /// Streams that no host can serve are left out, and those that the client cannot play.
    pub per_variant: bool,
    pub stale_secs: u64,
    pub now: i128,
}

impl<'a> World<'a> {
    pub open spec fn wf(self) -> bool {
        self.blacklist.wf()
    }

    pub open spec fn scope(self) -> Scope<'a> {
        Scope {
            measured: self.measured,
            blacklist: self.blacklist,
            alive: self.alive,
            stale_secs: self.stale_secs,
            now: self.now,
        }
    }

    fn to_scope(&self) -> (r: Scope<'a>)
        ensures
            r == self.scope(),
    {
        Scope {
            measured: self.measured,
            blacklist: self.blacklist,
            alive: self.alive,
            stale_secs: self.stale_secs,
            now: self.now,
        }
    }

    /// The stream may be asked for on the host.
    pub open spec fn allows(self, host: Seq<char>, stream_id: u64) -> bool {
        !self.per_variant || host.len() == 0 || self.scope().eligible(host, stream_id)
    }

    fn is_allowed(&self, host: &str, stream_id: u64) -> (r: bool)
        requires
            self.wf(),
        ensures
            r == self.allows(host@, stream_id),
    {
        !self.per_variant || host.is_empty() || host_eligible_v2(&self.to_scope(), host, stream_id)
    }

    /// The client can play the stream, and some host can serve it.
    pub open spec fn playable(self, stream_id: u64, caps: Option<Set<Seq<char>>>) -> bool {
        match caps {
            Some(have) => self.scope().served(stream_id) && forall|t: Seq<char>| #[trigger]
                self.scope().asks(stream_id, t) ==> have.contains(t),
            None => true,
        }
    }

    fn can_play(&self, stream_id: u64, caps: Option<&[String]>) -> (r: bool)
        requires
            self.wf(),
        ensures
            r == self.playable(stream_id, opt_texts(caps)),
    {
        let have = match caps {
            Some(have) => have,
            None => {
                return true;
            },
        };
        let asked = match variant_caps_required(&self.to_scope(), stream_id) {
            Some(asked) => asked,
            None => {
                return false;
            },
        };
        let mut i: usize = 0;
        while i < asked.len()
            invariant
                i <= asked@.len(),
                forall|t: Seq<char>| #[trigger] texts(asked@).contains(t) == self.scope().asks(stream_id, t),
                opt_texts(caps) == Some(texts(have@).to_set()),
                forall|j: int| 0 <= j < i ==> texts(have@).contains(#[trigger] texts(asked@)[j]),
            decreases asked@.len() - i,
        {
            if !has_text(have, &asked[i]) {
                proof {
                    assert(texts(asked@)[i as int] == asked@[i as int]@);
                    assert(texts(asked@).contains(asked@[i as int]@));
                }
                return false;
            }
            i = i + 1;
        }
        proof {
            assert forall|t: Seq<char>| #[trigger] self.scope().asks(stream_id, t) implies texts(have@).contains(t) by {
                assert(texts(asked@).contains(t));
                let j = choose|j: int| 0 <= j < texts(asked@).len() && texts(asked@)[j] == t;
                assert(texts(have@).contains(texts(asked@)[j]));
            }
        }
        true
    }

    /// The stream on the host.
    pub open spec fn on_host(self, host: Seq<char>, stream_id: u64) -> CandView {
        CandView { url: self.client.live_url(host, stream_id as nat, "m3u8"@), host, stream_id }
    }

    /// The source on the hosts other than the one that listed it.
    pub open spec fn elsewhere(self, s: SourceView, hosts: Seq<Seq<char>>) -> Seq<CandView>
        decreases hosts.len(),
    {
        if hosts.len() == 0 {
            Seq::empty()
        } else {
            let before = self.elsewhere(s, hosts.drop_last());
            if hosts.last() != s.origin_host && self.allows(hosts.last(), s.stream_id) {
                before.push(self.on_host(hosts.last(), s.stream_id))
            } else {
                before
            }
        }
    }

    /// The URLs for a source: its own, or the one on the host that listed it and then those on
    /// the others.
    pub open spec fn of_source(self, s: SourceView, caps: Option<Set<Seq<char>>>) -> Seq<CandView> {
        if self.per_variant && !self.playable(s.stream_id, caps) {
            Seq::empty()
        } else {
            match s.direct_source {
                Some(url) => seq![CandView { url, host: host_key(url), stream_id: s.stream_id }],
                None => (if s.origin_host.len() > 0 && self.allows(s.origin_host, s.stream_id) {
                    seq![self.on_host(s.origin_host, s.stream_id)]
                } else {
                    Seq::empty()
                }) + self.elsewhere(s, texts(self.alive@)),
            }
        }
    }

    /// The URLs for all sources, in the order of the sources.
    pub open spec fn of_sources(self, s: Seq<SourceView>, caps: Option<Set<Seq<char>>>) -> Seq<CandView>
        decreases s.len(),
    {
        if s.len() == 0 {
            Seq::empty()
        } else {
            self.of_sources(s.drop_last(), caps) + self.of_source(s.last(), caps)
        }
    }

    /// What the URLs for a channel are ordered by: the lowest first.
    pub open spec fn rank(self, key: Seq<char>, kind: ChannelKind) -> spec_fn(CandView) -> Seq<int> {
        |c: CandView|
            match kind {
                ChannelKind::Tv => places(
                    tv_key(tv_rank(key, c, *self.measured, *self.blacklist, event_views(self.log@), self.now)),
                ),
                ChannelKind::Radio => places(
                    radio_key(radio_rank(key, c, *self.measured, *self.blacklist, event_views(self.log@), self.now)),
                ),
            }
    }

    /// The URLs for a channel, each once, the best first.
    pub open spec fn candidates(self, c: ChannelView, caps: Option<Set<Seq<char>>>) -> Seq<CandView> {
        ranked_by(deduped(self.of_sources(c.sources, caps)), self.rank(c.key, c.kind))
    }
}

/// The texts of a list that may be missing.
pub open spec fn opt_texts(o: Option<&[String]>) -> Option<Set<Seq<char>>> {
    match o {
        Some(v) => Some(texts(v@).to_set()),
        None => None,
    }
}

/// The URL is in the list.
pub open spec fn has_url(s: Seq<CandView>, url: Seq<char>) -> bool {
    exists|i: int| 0 <= i < s.len() && (#[trigger] s[i]).url == url
}

/// The list without those whose URL came before.
pub open spec fn deduped(s: Seq<CandView>) -> Seq<CandView>
    decreases s.len(),
{
    if s.len() == 0 {
        s
    } else {
        let before = deduped(s.drop_last());
        if has_url(before, s.last().url) {
            before
        } else {
            before.push(s.last())
        }
    }
}

pub fn dedup_preserving_order(v: Vec<Candidate>) -> (r: Vec<Candidate>)
    ensures
        cand_views(r@) == deduped(cand_views(v@)),
{
    let ghost all = cand_views(v@);
    let mut out: Vec<Candidate> = Vec::new();
    let ghost items = v@;
    for c in it: v
        invariant
            it.seq() == items,
            all == cand_views(items),
            cand_views(out@) == deduped(all.take(it.index())),
    {
        let ghost k = it.index();
        let ghost was = cand_views(out@);
        proof {
            assert(all[k] == c@);
            assert(all.take(k + 1).drop_last() =~= all.take(k));
            assert(all.take(k + 1).last() == c@);
        }
        let mut again = false;
        let mut i: usize = 0;
        while i < out.len()
            invariant
                i <= out@.len(),
                was == cand_views(out@),
                again == exists|j: int| 0 <= j < i && (#[trigger] was[j]).url == c@.url,
            decreases out@.len() - i,
        {
            proof {
                assert(was[i as int] == out@[i as int]@);
            }
            if out[i].url == c.url {
                again = true;
            }
            i = i + 1;
        }
        if !again {
            out.push(c);
            proof {
                assert(cand_views(out@) =~= was.push(c@));
            }
        }
    }
    proof {
        assert(all.take(all.len() as int) =~= all);
    }
    out
}

/// The places of a rank.
pub open spec fn tv_key(k: TvRankKey) -> Seq<i64> {
    seq![
        k.0 as i64,
        k.1 as i64,
        k.2 as i64,
        k.3 as i64,
        k.4 as i64,
        k.5 as i64,
        k.6 as i64,
        k.7,
        k.8 as i64,
        k.9 as i64,
        k.10 as i64,
    ]
}

/// The places of a rank.
pub open spec fn radio_key(k: RadioRankKey) -> Seq<i64> {
    seq![
        k.0 as i64,
        k.1 as i64,
        k.2 as i64,
        k.3 as i64,
        k.4 as i64,
        k.5 as i64,
        k.6 as i64,
        k.7 as i64,
    ]
}

/// Turned round: what ranks higher comes first.
pub open spec fn places(k: Seq<i64>) -> Seq<int> {
    k.map_values(|n: i64| -(n as int))
}

/// A URL and its rank.
pub struct Keyed {
    pub cand: Candidate,
    pub key: Vec<i64>,
}

impl Ranked for Keyed {
    open spec fn rank(&self) -> Seq<int> {
        places(self.key@)
    }

    fn precedes(&self, other: &Self) -> (r: bool) {
        let a = &self.key;
        let b = &other.key;
        let ghost ka = places(a@);
        let ghost kb = places(b@);
        let mut i: usize = 0;
        proof {
            assert(ka.skip(0) =~= ka && kb.skip(0) =~= kb);
        }
        while i < a.len() && i < b.len() && a[i] == b[i]
            invariant
                i <= a@.len(),
                i <= b@.len(),
                ka == places(a@),
                kb == places(b@),
                lex_lt(ka, kb) == lex_lt(ka.skip(i as int), kb.skip(i as int)),
            decreases a@.len() - i,
        {
            proof {
                assert(ka.skip(i as int).skip(1) =~= ka.skip(i + 1));
                assert(kb.skip(i as int).skip(1) =~= kb.skip(i + 1));
            }
            i = i + 1;
        }
        if i >= b.len() {
            false
        } else if i >= a.len() {
            true
        } else {
            a[i] > b[i]
        }
    }
}

pub fn make_xtream_candidate(client: &XtreamClient, host: &str, stream_id: u64) -> (r: Candidate)
    ensures
        r@ == (CandView { url: client.live_url(host@, stream_id as nat, "m3u8"@), host: host@, stream_id }),
{
    Candidate { url: client.stream_url(host, stream_id, "m3u8"), host: owned(host), stream_id }
}

fn add_source(world: &World<'_>, s: &CanonicalSource, caps: Option<&[String]>, out: &mut Vec<Candidate>)
    requires
        world.wf(),
    ensures
        cand_views(final(out)@) == cand_views(old(out)@) + world.of_source(s@, opt_texts(caps)),
{
    let ghost start = cand_views(out@);
    if world.per_variant && !world.can_play(s.stream_id, caps) {
        proof {
            assert(start + world.of_source(s@, opt_texts(caps)) =~= start);
        }
        return;
    }
    if let Some(direct) = &s.direct_source {
        let c = Candidate { url: direct.clone(), host: derive_host(direct), stream_id: s.stream_id };
        let ghost v = c@;
        out.push(c);
        proof {
            assert(cand_views(out@) =~= start + seq![v]);
        }
        return;
    }
    if !s.origin_host.as_str().is_empty() && world.is_allowed(&s.origin_host, s.stream_id) {
        let c = make_xtream_candidate(world.client, &s.origin_host, s.stream_id);
        let ghost v = c@;
        out.push(c);
        proof {
            assert(cand_views(out@) =~= start + seq![v]);
        }
    }
    let ghost first = cand_views(out@);
    let ghost hosts = texts(world.alive@);
    let mut i: usize = 0;
    proof {
        assert(first + world.elsewhere(s@, hosts.take(0)) =~= first);
    }
    while i < world.alive.len()
        invariant
            world.wf(),
            i <= world.alive@.len(),
            hosts == texts(world.alive@),
            cand_views(out@) == first + world.elsewhere(s@, hosts.take(i as int)),
        decreases world.alive@.len() - i,
    {
        let host = &world.alive[i];
        let ghost was = cand_views(out@);
        proof {
            assert(hosts[i as int] == host@);
            assert(hosts.take(i + 1).drop_last() =~= hosts.take(i as int));
            assert(hosts.take(i + 1).last() == host@);
        }
        if *host != s.origin_host && world.is_allowed(host, s.stream_id) {
            let c = make_xtream_candidate(world.client, host, s.stream_id);
            let ghost v = c@;
            out.push(c);
            proof {
                assert(cand_views(out@) =~= was.push(v));
                assert(cand_views(out@) =~= first + world.elsewhere(s@, hosts.take(i + 1)));
            }
        }
        i = i + 1;
    }
    proof {
        assert(hosts.take(i as int) =~= hosts);
        assert(first + world.elsewhere(s@, hosts) =~= start + world.of_source(s@, opt_texts(caps)));
    }
}

fn key_of(world: &World<'_>, channel: &CanonicalChannel, c: &Candidate) -> (r: Vec<i64>)
    requires
        world.wf(),
    ensures
        places(r@) == (world.rank(channel.key@, channel.kind))(c@),
{
    match channel.kind {
        ChannelKind::Tv => {
            let k = source_rank_key_tv(
                &channel.key,
                c.stream_id,
                &c.url,
                &c.host,
                world.measured,
                world.blacklist,
                world.log,
                world.now,
            );
            let r = vec![
                k.0 as i64,
                k.1 as i64,
                k.2 as i64,
                k.3 as i64,
                k.4 as i64,
                k.5 as i64,
                k.6 as i64,
                k.7,
                k.8 as i64,
                k.9 as i64,
                k.10 as i64,
            ];
            proof {
                assert(r@ =~= tv_key(k));
            }
            r
        },
        ChannelKind::Radio => {
            let k = source_rank_key_radio(
                &channel.key,
                c.stream_id,
                &c.url,
                &c.host,
                world.measured,
                world.blacklist,
                world.log,
                world.now,
            );
            let r = vec![
                k.0 as i64,
                k.1 as i64,
                k.2 as i64,
                k.3 as i64,
                k.4 as i64,
                k.5 as i64,
                k.6 as i64,
                k.7 as i64,
            ];
            proof {
                assert(r@ =~= radio_key(k));
            }
            r
        },
    }
}

/// The URLs to try for a channel, the best first; of equals, in the order of the sources.
pub fn build_candidates(world: &World<'_>, channel: &CanonicalChannel, client_caps: Option<&[String]>) -> (r: Vec<Candidate>)
    requires
        world.wf(),
    ensures
        cand_views(r@) == world.candidates(channel@, opt_texts(client_caps)),
{
    let ghost sources = channel@.sources;
    let ghost caps = opt_texts(client_caps);
    let mut all: Vec<Candidate> = Vec::new();
    let mut i: usize = 0;
    proof {
        assert(cand_views(all@) =~= world.of_sources(sources.take(0), caps));
    }
    while i < channel.sources.len()
        invariant
            world.wf(),
            i <= channel.sources@.len(),
            sources == source_views(channel.sources@),
            caps == opt_texts(client_caps),
            cand_views(all@) == world.of_sources(sources.take(i as int), caps),
        decreases channel.sources@.len() - i,
    {
        proof {
            assert(sources[i as int] == channel.sources@[i as int]@);
            assert(sources.take(i + 1).drop_last() =~= sources.take(i as int));
            assert(sources.take(i + 1).last() == sources[i as int]);
        }
        add_source(world, &channel.sources[i], client_caps, &mut all);
        i = i + 1;
    }
    proof {
        assert(sources.take(i as int) =~= sources);
    }
    let once = dedup_preserving_order(all);
    let ghost plain = cand_views(once@);
    let ghost items = once@;
    let ghost rank = world.rank(channel.key@, channel.kind);
    let mut keyed: Vec<Keyed> = Vec::new();
    for c in it: once
        invariant
            world.wf(),
            it.seq() == items,
            rank == world.rank(channel.key@, channel.kind),
            keyed@.len() == it.index(),
            forall|j: int|
                0 <= j < keyed@.len() ==> (#[trigger] keyed@[j]).cand == items[j] && places(keyed@[j].key@) == rank(
                    items[j]@,
                ),
    {
        let key = key_of(world, channel, &c);
        keyed.push(Keyed { cand: c, key });
    }
    let ghost before = keyed@;
    let sorted = sort_ranked(keyed);
    let ghost after = sorted@;
    let ghost view = |k: Keyed| k.cand@;
    proof {
        assert forall|j: int| 0 <= j < before.len() implies own_rank::<Keyed>()(#[trigger] before[j]) == rank(view(before[j])) by {
            assert(before[j].cand == items[j]);
        }
        lemma_ranked_by_map_on(before, view, own_rank(), rank);
        assert(before.map_values(view) =~= plain);
    }
    let mut out: Vec<Candidate> = Vec::new();
    for k in it: sorted
        invariant
            it.seq() == after,
            out@.len() == it.index(),
            forall|j: int| 0 <= j < out@.len() ==> #[trigger] out@[j] == after[j].cand,
    {
        out.push(k.cand);
    }
    proof {
        assert(cand_views(out@) =~= after.map_values(view));
    }
    out
}

/// What the best URL for the channel asks for; none where there is no URL, or no host can
/// serve the best one.
pub fn channel_caps_v2(world: &World<'_>, channel: &CanonicalChannel, client_caps: Option<&[String]>) -> (r: Option<Vec<String>>)
    requires
        world.wf(),
    ensures
        ({
            let cs = world.candidates(channel@, opt_texts(client_caps));
            &&& r is Some <==> cs.len() > 0 && world.scope().served(cs[0].stream_id)
            &&& r matches Some(caps) ==> ascending(texts(caps@)) && forall|t: Seq<char>| #[trigger]
                texts(caps@).contains(t) == world.scope().asks(cs[0].stream_id, t)
        }),
{
    let cs = build_candidates(world, channel, client_caps);
    if cs.len() == 0 {
        return None;
    }
    proof {
        assert(cand_views(cs@)[0] == cs@[0]@);
    }
    variant_caps_required(&world.to_scope(), cs[0].stream_id)
}

// --- The client's choice ----------------------------------------------------------------------

/// The text that bytes stand for, where they do.
pub open spec fn text_of(payload: Option<Seq<u8>>) -> Option<Seq<char>> {
    match payload {
        Some(b) => if valid_utf8(b) {
            Some(decode_utf8(b))
        } else {
            None
        },
        None => None,
    }
}

/// The first place of a URL, or the length of the list.
pub open spec fn place_of(s: Seq<CandView>, url: Seq<char>) -> int
    decreases s.len(),
{
    if s.len() == 0 || s[0].url == url {
        0
    } else {
        1 + place_of(s.skip(1), url)
    }
}

/// The list with item `i` in front.
pub open spec fn promoted<T>(s: Seq<T>, i: int) -> Seq<T> {
    seq![s[i]] + s.remove(i)
}

fn find_url(s: &[Candidate], url: &String) -> (r: Option<usize>)
    ensures
        match r {
            Some(i) => i < s@.len() && place_of(cand_views(s@), url@) == i,
            None => place_of(cand_views(s@), url@) == s@.len(),
        },
{
    let ghost all = cand_views(s@);
    let mut i: usize = 0;
    proof {
        assert(all.skip(0) =~= all);
    }
    while i < s.len()
        invariant
            i <= s@.len(),
            all == cand_views(s@),
            place_of(all, url@) == i + place_of(all.skip(i as int), url@),
        decreases s@.len() - i,
    {
        proof {
            assert(all.skip(i as int)[0] == s@[i as int]@);
            assert(all.skip(i as int).skip(1) =~= all.skip(i + 1));
        }
        if s[i].url == *url {
            return Some(i);
        }
        i = i + 1;
    }
    None
}

/// Puts the URL that the bytes spell in front, where it is in the list.
pub fn promote_url(candidates: &mut Vec<Candidate>, payload: Option<Vec<u8>>) -> (r: Result<String, ()>)
    ensures
        ({
            let all = cand_views(old(candidates)@);
            match r {
                Ok(url) => text_of(opt_bytes(payload)) == Some(url@) && place_of(all, url@) < all.len() && cand_views(
                    final(candidates)@,
                ) == promoted(all, place_of(all, url@)),
                Err(_) => cand_views(final(candidates)@) == all && (text_of(opt_bytes(payload)) matches Some(url) ==> place_of(
                    all,
                    url,
                ) == all.len()),
            }
        }),
{
    let ghost all = cand_views(candidates@);
    let raw = match payload {
        Some(raw) => raw,
        None => {
            return Err(());
        },
    };
    let url = match from_utf8(raw) {
        Some(url) => url,
        None => {
            return Err(());
        },
    };
    let i: usize = match find_url(candidates, &url) {
        Some(i) => i,
        None => {
            return Err(());
        },
    };
    if i != 0 {
        let c = candidates.remove(i);
        let ghost v = c@;
        candidates.insert(0, c);
        proof {
            assert(v == all[i as int]);
            assert(cand_views(candidates@) =~= promoted(all, i as int));
        }
    } else {
        proof {
            assert(all =~= promoted(all, 0));
        }
    }
    Ok(url)
}

/// Puts the URL that the client asks for in front, where it is in the list.
pub fn apply_force_url(candidates: &mut Vec<Candidate>, encoded: &str) -> (r: Result<String, ()>)
    ensures
        ({
            let all = cand_views(old(candidates)@);
            match r {
                Ok(url) => text_of(url_base64_decoded(encoded@)) == Some(url@) && place_of(all, url@) < all.len() && cand_views(
                    final(candidates)@,
                ) == promoted(all, place_of(all, url@)),
                Err(_) => cand_views(final(candidates)@) == all && (text_of(url_base64_decoded(encoded@)) matches Some(
                    url,
                ) ==> place_of(all, url) == all.len()),
            }
        }),
{
    promote_url(candidates, decode_url_base64(encoded))
}

// --- Hosts for recordings, and URLs to check --------------------------------------------------

/// The hosts that are bad, or those that are not.
pub open spec fn split_hosts(alive: Seq<Seq<char>>, bl: Blacklist, now: i128, bad: bool) -> Seq<Seq<char>>
    decreases alive.len(),
{
    if alive.len() == 0 {
        Seq::empty()
    } else {
        let before = split_hosts(alive.drop_last(), bl, now, bad);
        if host_bad(bl@.hosts, bl.config, alive.last(), now) == bad {
            before.push(alive.last())
        } else {
            before
        }
    }
}

/// The hosts to ask for a recording: those that are not bad, and all where all are.
pub open spec fn archive_hosts(alive: Seq<Seq<char>>, bl: Blacklist, now: i128) -> Seq<Seq<char>> {
    let fine = split_hosts(alive, bl, now, false);
    if fine.len() == 0 {
        split_hosts(alive, bl, now, true)
    } else {
        fine
    }
}

pub fn archive_candidate_hosts(alive: &[String], bl: &Blacklist, now: i128) -> (r: Vec<String>)
    requires
        bl.wf(),
    ensures
        texts(r@) == archive_hosts(texts(alive@), *bl, now),
{
    let ghost all = texts(alive@);
    let mut fine: Vec<String> = Vec::new();
    let mut bad: Vec<String> = Vec::new();
    let mut i: usize = 0;
    while i < alive.len()
        invariant
            bl.wf(),
            i <= alive@.len(),
            all == texts(alive@),
            texts(fine@) == split_hosts(all.take(i as int), *bl, now, false),
            texts(bad@) == split_hosts(all.take(i as int), *bl, now, true),
        decreases alive@.len() - i,
    {
        let h = &alive[i];
        let ghost f = texts(fine@);
        let ghost b = texts(bad@);
        proof {
            assert(all[i as int] == h@);
            assert(all.take(i + 1).drop_last() =~= all.take(i as int));
            assert(all.take(i + 1).last() == h@);
        }
        if bl.is_host_bad(h, now) {
            bad.push(h.clone());
            proof {
                assert(texts(bad@) =~= b.push(h@));
            }
        } else {
            fine.push(h.clone());
            proof {
                assert(texts(fine@) =~= f.push(h@));
            }
        }
        i = i + 1;
    }
    proof {
        assert(all.take(i as int) =~= all);
    }
    if fine.len() == 0 {
        bad
    } else {
        fine
    }
}

/// The first `count` of the list, without item `served`.
pub open spec fn others(s: Seq<CandView>, served: int, count: nat) -> Seq<CandView> {
    let rest = if 0 <= served < s.len() {
        s.remove(served)
    } else {
        s
    };
    if rest.len() > count {
        rest.take(count as int)
    } else {
        rest
    }
}

/// The URLs to check behind a play: the best ones but the one that is played, however they
/// did before.
pub fn pick_validation_candidates(candidates: &[Candidate], served_idx: usize, count: usize) -> (r: Vec<Candidate>)
    ensures
        cand_views(r@) == others(cand_views(candidates@), served_idx as int, count as nat),
{
    let ghost all = cand_views(candidates@);
    let ghost rest = if served_idx < all.len() {
        all.remove(served_idx as int)
    } else {
        all
    };
    let mut out: Vec<Candidate> = Vec::new();
    let mut i: usize = 0;
    while i < candidates.len() && out.len() < count
        invariant
            i <= candidates@.len(),
            all == cand_views(candidates@),
            rest == (if served_idx < all.len() {
                all.remove(served_idx as int)
            } else {
                all
            }),
            out@.len() <= count,
            out@.len() == (if served_idx < i {
                i - 1
            } else {
                i as int
            }),
            cand_views(out@) =~= rest.take(out@.len() as int),
        decreases candidates@.len() - i,
    {
        if i != served_idx {
            let ghost was = cand_views(out@);
            let c = candidates[i].clone();
            let ghost v = c@;
            out.push(c);
            proof {
                assert(v == all[i as int]);
                assert(rest[out@.len() - 1] == v);
                assert(cand_views(out@) =~= was.push(v));
                assert(cand_views(out@) =~= rest.take(out@.len() as int));
            }
        }
        i = i + 1;
    }
    proof {
        assert(cand_views(out@) =~= others(all, served_idx as int, count as nat));
    }
    out
}

/// The URLs to check behind a play of candidate `served_idx`: none where checking is off, or the
/// last one is played.
pub fn validation_plan(candidates: &[Candidate], served_idx: usize, count: usize) -> (r: Vec<Candidate>)
    ensures
        cand_views(r@) == (if count == 0 || candidates@.len() <= served_idx + 1 {
            Seq::empty()
        } else {
            others(cand_views(candidates@), served_idx as int, count as nat)
        }),
{
    if count == 0 || candidates.len() <= served_idx || candidates.len() - served_idx <= 1 {
        let none: Vec<Candidate> = Vec::new();
        proof {
            assert(cand_views(none@) =~= Seq::empty());
        }
        return none;
    }
    pick_validation_candidates(candidates, served_idx, count)
}

// --- What is promised of it -------------------------------------------------------------------

proof fn lemma_deduped(s: Seq<CandView>, url: Seq<char>)
    ensures
        has_url(deduped(s), url) == has_url(s, url),
    decreases s.len(),
{
    if s.len() > 0 {
        let t = s.drop_last();
        let d = deduped(t);
        lemma_deduped(t, url);
        lemma_deduped(t, s.last().url);
        let e = deduped(s);
        if has_url(t, url) {
            let i = choose|i: int| 0 <= i < t.len() && (#[trigger] t[i]).url == url;
            assert(s[i].url == url);
            let k = choose|k: int| 0 <= k < d.len() && (#[trigger] d[k]).url == url;
            assert(e[k].url == url);
        }
        if s.last().url == url {
            assert(s[s.len() - 1].url == url);
            if !has_url(d, url) {
                assert(e[d.len() as int].url == url);
            }
        }
        if has_url(s, url) && s.last().url != url {
            let i = choose|i: int| 0 <= i < s.len() && (#[trigger] s[i]).url == url;
            assert(t[i].url == url);
        }
        if has_url(e, url) && s.last().url != url {
            let k = choose|k: int| 0 <= k < e.len() && (#[trigger] e[k]).url == url;
            assert(d[k].url == url);
        }
    }
}

proof fn lemma_deduped_distinct(s: Seq<CandView>)
    ensures
        forall|i: int, j: int|
            #![trigger deduped(s)[i], deduped(s)[j]]
            0 <= i < deduped(s).len() && 0 <= j < deduped(s).len() && i != j ==> deduped(s)[i].url != deduped(s)[j].url,
    decreases s.len(),
{
    if s.len() > 0 {
        lemma_deduped_distinct(s.drop_last());
        let d = deduped(s.drop_last());
        let e = deduped(s);
        assert forall|i: int, j: int| #![trigger e[i], e[j]] 0 <= i < e.len() && 0 <= j < e.len() && i != j implies e[i].url
            != e[j].url by {
            if i < d.len() {
                assert(e[i] == d[i]);
            }
            if j < d.len() {
                assert(e[j] == d[j]);
            }
        }
    }
}

/// No URL is tried twice.
pub proof fn law_candidates_are_distinct(world: World, c: ChannelView, caps: Option<Set<Seq<char>>>, i: int, j: int)
    requires
        0 <= i < j < world.candidates(c, caps).len(),
    ensures
        world.candidates(c, caps)[i].url != world.candidates(c, caps)[j].url,
{
    let d = deduped(world.of_sources(c.sources, caps));
    let rank = world.rank(c.key, c.kind);
    lemma_deduped_distinct(world.of_sources(c.sources, caps));
    lemma_ranked_distinct(d, rank, |v: CandView| v.url);
    law_ranked(d, rank);
    let r = ranked_by(d, rank);
    let f = |v: CandView| v.url;
    assert(f(r[i]) != f(r[j]));
}

proof fn lemma_listed(world: World, c: ChannelView, caps: Option<Set<Seq<char>>>, url: Seq<char>)
    ensures
        has_url(world.candidates(c, caps), url) == has_url(world.of_sources(c.sources, caps), url),
{
    let all = world.of_sources(c.sources, caps);
    let d = deduped(all);
    let rank = world.rank(c.key, c.kind);
    let r = ranked_by(d, rank);
    lemma_deduped(all, url);
    if has_url(d, url) {
        let i = choose|i: int| 0 <= i < d.len() && (#[trigger] d[i]).url == url;
        lemma_ranked_contains(d, rank, d[i]);
        assert(d.contains(d[i]));
        let k = choose|k: int| 0 <= k < r.len() && r[k] == d[i];
        assert(r[k].url == url);
    }
    if has_url(r, url) {
        let k = choose|k: int| 0 <= k < r.len() && (#[trigger] r[k]).url == url;
        lemma_ranked_contains(d, rank, r[k]);
        assert(r.contains(r[k]));
        let i = choose|i: int| 0 <= i < d.len() && d[i] == r[k];
        assert(d[i].url == url);
    }
}

proof fn lemma_elsewhere(world: World, s: SourceView, hosts: Seq<Seq<char>>, k: int)
    requires
        0 <= k < hosts.len(),
        hosts[k] != s.origin_host,
        world.allows(hosts[k], s.stream_id),
    ensures
        has_url(world.elsewhere(s, hosts), world.on_host(hosts[k], s.stream_id).url),
    decreases hosts.len(),
{
    let url = world.on_host(hosts[k], s.stream_id).url;
    let all = world.elsewhere(s, hosts);
    if k == hosts.len() - 1 {
        assert(all[all.len() - 1].url == url);
    } else {
        let t = hosts.drop_last();
        assert(t[k] == hosts[k]);
        lemma_elsewhere(world, s, t, k);
        let before = world.elsewhere(s, t);
        let i = choose|i: int| 0 <= i < before.len() && (#[trigger] before[i]).url == url;
        assert(all[i].url == url);
    }
}

proof fn lemma_of_sources(world: World, s: Seq<SourceView>, caps: Option<Set<Seq<char>>>, j: int, url: Seq<char>)
    requires
        0 <= j < s.len(),
        has_url(world.of_source(s[j], caps), url),
    ensures
        has_url(world.of_sources(s, caps), url),
    decreases s.len(),
{
    let all = world.of_sources(s, caps);
    let before = world.of_sources(s.drop_last(), caps);
    if j == s.len() - 1 {
        let own = world.of_source(s[j], caps);
        let i = choose|i: int| 0 <= i < own.len() && (#[trigger] own[i]).url == url;
        assert(all[before.len() + i].url == url);
    } else {
        assert(s.drop_last()[j] == s[j]);
        lemma_of_sources(world, s.drop_last(), caps, j, url);
        let i = choose|i: int| 0 <= i < before.len() && (#[trigger] before[i]).url == url;
        assert(all[i].url == url);
    }
}

/// No source disappears because it is suspected: unless streams are left out per variant, each
/// source is among the URLs on each host that is alive and on the one that listed it, or with
/// its own URL.
pub proof fn law_no_source_disappears(
    world: World,
    c: ChannelView,
    caps: Option<Set<Seq<char>>>,
    j: int,
    host: Seq<char>,
)
    requires
        !world.per_variant,
        0 <= j < c.sources.len(),
    ensures
        c.sources[j].direct_source matches Some(url) ==> has_url(world.candidates(c, caps), url),
        c.sources[j].direct_source is None && (if host == c.sources[j].origin_host {
            host.len() > 0
        } else {
            texts(world.alive@).contains(host)
        }) ==> has_url(
            world.candidates(c, caps),
            world.client.live_url(host, c.sources[j].stream_id as nat, "m3u8"@),
        ),
{
    let s = c.sources[j];
    let own = world.of_source(s, caps);
    match s.direct_source {
        Some(url) => {
            assert(own[0].url == url);
            lemma_of_sources(world, c.sources, caps, j, url);
            lemma_listed(world, c, caps, url);
        },
        None => {
            let url = world.on_host(host, s.stream_id).url;
            let alive = texts(world.alive@);
            let first = if s.origin_host.len() > 0 {
                seq![world.on_host(s.origin_host, s.stream_id)]
            } else {
                Seq::empty()
            };
            if host == s.origin_host {
                if host.len() > 0 {
                    assert(own[0].url == url);
                    lemma_of_sources(world, c.sources, caps, j, url);
                    lemma_listed(world, c, caps, url);
                }
            } else if alive.contains(host) {
                let k = choose|k: int| 0 <= k < alive.len() && alive[k] == host;
                lemma_elsewhere(world, s, alive, k);
                let rest = world.elsewhere(s, alive);
                let i = choose|i: int| 0 <= i < rest.len() && (#[trigger] rest[i]).url == url;
                assert(own[first.len() + i].url == url);
                lemma_of_sources(world, c.sources, caps, j, url);
                lemma_listed(world, c, caps, url);
            }
        },
    }
}

/// A URL that is deeper in cool-off never stands ahead of one that is less deep.
pub proof fn law_cool_off_comes_first(world: World, c: ChannelView, caps: Option<Set<Seq<char>>>, i: int, j: int)
    requires
        0 <= i < j < world.candidates(c, caps).len(),
    ensures
        state_of(world.blacklist@.urls, world.candidates(c, caps)[i].url).cool_off_step <= state_of(
            world.blacklist@.urls,
            world.candidates(c, caps)[j].url,
        ).cool_off_step,
{
    let d = deduped(world.of_sources(c.sources, caps));
    let rank = world.rank(c.key, c.kind);
    law_ranked(d, rank);
    let r = ranked_by(d, rank);
    assert(is_ranked(r, rank));
    assert(!lex_lt(rank(r[j]), rank(r[i])));
}

/// Where two keys agree up to a place, the one that does not come later is not higher there.
proof fn lemma_lex_place(a: Seq<int>, b: Seq<int>, k: int)
    requires
        !lex_lt(b, a),
        0 <= k < a.len(),
        k < b.len(),
        forall|j: int| 0 <= j < k ==> a[j] == b[j],
    ensures
        a[k] <= b[k],
    decreases k,
{
    if k > 0 {
        assert(a[0] == b[0]);
        assert forall|j: int| 0 <= j < k - 1 implies a.skip(1)[j] == b.skip(1)[j] by {
            assert(a[j + 1] == b[j + 1]);
        }
        lemma_lex_place(a.skip(1), b.skip(1), k - 1);
    }
}

proof fn lemma_in_order(world: World, c: ChannelView, caps: Option<Set<Seq<char>>>, i: int, j: int)
    requires
        0 <= i < j < world.candidates(c, caps).len(),
    ensures
        ({
            let r = world.candidates(c, caps);
            let rank = world.rank(c.key, c.kind);
            !lex_lt(rank(r[j]), rank(r[i]))
        }),
{
    let d = deduped(world.of_sources(c.sources, caps));
    let rank = world.rank(c.key, c.kind);
    law_ranked(d, rank);
    let r = ranked_by(d, rank);
    assert(is_ranked(r, rank));
    assert(!lex_lt(rank(r[j]), rank(r[i])));
}

/// The stream was measured on its host.
pub open spec fn was_measured(world: World, c: CandView) -> bool {
    window(world.measured@, c.stream_id, c.host).len() > 0
}

/// The URL names a host, and that one is bad.
pub open spec fn on_bad_host(world: World, c: CandView) -> bool {
    c.host.len() > 0 && host_bad(world.blacklist@.hosts, world.blacklist.config, c.host, world.now)
}

/// The two URLs are as deep in cool-off, as good by their hosts, both measured or both not, and
/// have worked as often and as lately.
pub open spec fn alike(world: World, key: Seq<char>, a: CandView, b: CandView) -> bool {
    let log = event_views(world.log@);
    &&& state_of(world.blacklist@.urls, a.url).cool_off_step == state_of(world.blacklist@.urls, b.url).cool_off_step
    &&& on_bad_host(world, a) == on_bad_host(world, b)
    &&& was_measured(world, a) == was_measured(world, b)
    &&& success_value(logged_outcomes(log, a.stream_id, a.host)) == success_value(
        logged_outcomes(log, b.stream_id, b.host),
    )
    &&& bonus(good_age(world.blacklist@.good, key, a.url, world.now)) == bonus(
        good_age(world.blacklist@.good, key, b.url, world.now),
    )
}

/// What the first five places of a rank stand for.
proof fn lemma_common_places(world: World, key: Seq<char>, kind: ChannelKind, c: CandView)
    ensures
        ({
            let x = (world.rank(key, kind))(c);
            let (bl, log) = (world.blacklist, event_views(world.log@));
            &&& x.len() >= 8
            &&& x[0] == state_of(bl@.urls, c.url).cool_off_step
            &&& x[1] == (if on_bad_host(world, c) {
                2int
            } else {
                0
            })
            &&& x[2] == (if was_measured(world, c) {
                -1int
            } else {
                0
            })
            &&& x[3] == -success_value(logged_outcomes(log, c.stream_id, c.host))
            &&& x[4] == -bonus(good_age(bl@.good, key, c.url, world.now))
        }),
{
    let log = event_views(world.log@);
    match kind {
        ChannelKind::Tv => {
            let k = tv_key(tv_rank(key, c, *world.measured, *world.blacklist, log, world.now));
            assert(places(k).len() == 11);
        },
        ChannelKind::Radio => {
            let k = radio_key(radio_rank(key, c, *world.measured, *world.blacklist, log, world.now));
            assert(places(k).len() == 8);
        },
    }
}

/// What the places of a television rank behind them stand for.
proof fn lemma_tv_places(world: World, key: Seq<char>, c: CandView)
    ensures
        ({
            let x = (world.rank(key, ChannelKind::Tv))(c);
            &&& x.len() == 11
            &&& quality(window(world.measured@, c.stream_id, c.host)) matches Some(q) ==> {
                &&& x[5] == -hdr_value(q.pix_fmt, q.color_transfer)
                &&& x[6] == -bpp_value(q.bitrate_kbps, q.width, q.height)
                &&& q.width * q.height <= i64::MAX ==> x[7] == -(q.width * q.height)
                &&& x[8] == -codec_value(q.codec)
                &&& x[9] == -fps_value(q.framerate)
                &&& q.bitrate_kbps matches Some(k) ==> k <= i32::MAX ==> x[10] == -(k as int)
            }
        }),
{
    let k = tv_key(tv_rank(key, c, *world.measured, *world.blacklist, event_views(world.log@), world.now));
    assert(places(k).len() == 11);
    if let Some(q) = quality(window(world.measured@, c.stream_id, c.host)) {
        lemma_pixels(q.width, q.height);
        assert(k[6] == bpp_value(q.bitrate_kbps, q.width, q.height));
    }
}

/// What the places of a radio rank behind them stand for.
proof fn lemma_radio_places(world: World, key: Seq<char>, c: CandView)
    ensures
        ({
            let x = (world.rank(key, ChannelKind::Radio))(c);
            &&& x.len() == 8
            &&& quality(window(world.measured@, c.stream_id, c.host)) matches Some(q) ==> {
                &&& x[5] == -audio_kbps_value(q.bitrate_kbps)
                &&& x[6] == -audio_sample_rate_value(q.sample_rate_hz)
                &&& x[7] == -audio_channels_value(q.audio_channels)
            }
        }),
{
    let k = radio_key(radio_rank(key, c, *world.measured, *world.blacklist, event_views(world.log@), world.now));
    assert(places(k).len() == 8);
}

/// Behind cool-off, what counts is that the host is not bad; then that the stream was measured;
/// then how often it worked; then whether it is the one that worked last.
pub proof fn law_history_comes_before_quality(world: World, c: ChannelView, caps: Option<Set<Seq<char>>>, i: int, j: int)
    requires
        0 <= i < j < world.candidates(c, caps).len(),
    ensures
        ({
            let (a, b) = (world.candidates(c, caps)[i], world.candidates(c, caps)[j]);
            let (bl, log) = (world.blacklist, event_views(world.log@));
            let cool = state_of(bl@.urls, a.url).cool_off_step == state_of(bl@.urls, b.url).cool_off_step;
            let (bad_a, bad_b) = (on_bad_host(world, a), on_bad_host(world, b));
            let won_a = success_value(logged_outcomes(log, a.stream_id, a.host));
            let won_b = success_value(logged_outcomes(log, b.stream_id, b.host));
            let late_a = bonus(good_age(bl@.good, c.key, a.url, world.now));
            let late_b = bonus(good_age(bl@.good, c.key, b.url, world.now));
            &&& state_of(bl@.urls, a.url).cool_off_step <= state_of(bl@.urls, b.url).cool_off_step
            &&& cool && bad_a ==> bad_b
            &&& cool && bad_a == bad_b && was_measured(world, b) ==> was_measured(world, a)
            &&& cool && bad_a == bad_b && was_measured(world, a) == was_measured(world, b) ==> won_a >= won_b
            &&& cool && bad_a == bad_b && was_measured(world, a) == was_measured(world, b) && won_a == won_b ==> late_a
                >= late_b
        }),
{
    let (a, b) = (world.candidates(c, caps)[i], world.candidates(c, caps)[j]);
    let rank = world.rank(c.key, c.kind);
    let (x, y) = (rank(a), rank(b));
    lemma_in_order(world, c, caps, i, j);
    lemma_common_places(world, c.key, c.kind, a);
    lemma_common_places(world, c.key, c.kind, b);
    lemma_lex_place(x, y, 0);
    if x[0] == y[0] {
        lemma_lex_place(x, y, 1);
        if x[1] == y[1] {
            lemma_lex_place(x, y, 2);
            if x[2] == y[2] {
                lemma_lex_place(x, y, 3);
                if x[3] == y[3] {
                    lemma_lex_place(x, y, 4);
                }
            }
        }
    }
}

/// Of two television streams that are alike in all else, the one with more dynamic range comes
/// first; then the one with more bits per pixel; then the one with more pixels; then the one
/// with the newer codec; then the one with more frames; then the one with more bits.
pub proof fn law_better_pictures_come_first(world: World, c: ChannelView, caps: Option<Set<Seq<char>>>, i: int, j: int)
    requires
        c.kind == ChannelKind::Tv,
        0 <= i < j < world.candidates(c, caps).len(),
        alike(world, c.key, world.candidates(c, caps)[i], world.candidates(c, caps)[j]),
    ensures
        ({
            let (a, b) = (world.candidates(c, caps)[i], world.candidates(c, caps)[j]);
            match (
                quality(window(world.measured@, a.stream_id, a.host)),
                quality(window(world.measured@, b.stream_id, b.host)),
            ) {
                (Some(p), Some(q)) => {
                    let range = hdr_value(p.pix_fmt, p.color_transfer) - hdr_value(q.pix_fmt, q.color_transfer);
                    let bits = bpp_value(p.bitrate_kbps, p.width, p.height) - bpp_value(q.bitrate_kbps, q.width, q.height);
                    let codec = codec_value(p.codec) - codec_value(q.codec);
                    let frames = fps_value(p.framerate) - fps_value(q.framerate);
                    &&& range >= 0
                    &&& range == 0 ==> bits >= 0
                    &&& p.width * p.height <= i64::MAX && q.width * q.height <= i64::MAX ==> {
                        &&& range == 0 && bits == 0 ==> p.width * p.height >= q.width * q.height
                        &&& range == 0 && bits == 0 && p.width * p.height == q.width * q.height ==> {
                            &&& codec >= 0
                            &&& codec == 0 ==> frames >= 0
                            &&& codec == 0 && frames == 0 ==> (match (p.bitrate_kbps, q.bitrate_kbps) {
                                (Some(m), Some(n)) => m <= i32::MAX && n <= i32::MAX ==> m >= n,
                                _ => true,
                            })
                        }
                    }
                },
                (p, q) => p is None && q is None,
            }
        }),
{
    let (a, b) = (world.candidates(c, caps)[i], world.candidates(c, caps)[j]);
    let rank = world.rank(c.key, c.kind);
    let (x, y) = (rank(a), rank(b));
    lemma_in_order(world, c, caps, i, j);
    lemma_common_places(world, c.key, c.kind, a);
    lemma_common_places(world, c.key, c.kind, b);
    lemma_tv_places(world, c.key, a);
    lemma_tv_places(world, c.key, b);
    assert(forall|k: int| 0 <= k < 5 ==> x[k] == y[k]);
    lemma_lex_place(x, y, 5);
    if x[5] == y[5] {
        lemma_lex_place(x, y, 6);
        if x[6] == y[6] {
            lemma_lex_place(x, y, 7);
            if x[7] == y[7] {
                lemma_lex_place(x, y, 8);
                if x[8] == y[8] {
                    lemma_lex_place(x, y, 9);
                    if x[9] == y[9] {
                        lemma_lex_place(x, y, 10);
                    }
                }
            }
        }
    }
}

/// Of two radio streams that are alike in all else, the one with the higher bit rate comes first;
/// then the one with the better sample rate; then the one with more channels.
pub proof fn law_better_sound_comes_first(world: World, c: ChannelView, caps: Option<Set<Seq<char>>>, i: int, j: int)
    requires
        c.kind == ChannelKind::Radio,
        0 <= i < j < world.candidates(c, caps).len(),
        alike(world, c.key, world.candidates(c, caps)[i], world.candidates(c, caps)[j]),
    ensures
        ({
            let (a, b) = (world.candidates(c, caps)[i], world.candidates(c, caps)[j]);
            match (
                quality(window(world.measured@, a.stream_id, a.host)),
                quality(window(world.measured@, b.stream_id, b.host)),
            ) {
                (Some(p), Some(q)) => {
                    let bits = audio_kbps_value(p.bitrate_kbps) - audio_kbps_value(q.bitrate_kbps);
                    let hz = audio_sample_rate_value(p.sample_rate_hz) - audio_sample_rate_value(q.sample_rate_hz);
                    &&& bits >= 0
                    &&& bits == 0 ==> hz >= 0
                    &&& bits == 0 && hz == 0 ==> audio_channels_value(p.audio_channels) >= audio_channels_value(
                        q.audio_channels,
                    )
                },
                (p, q) => p is None && q is None,
            }
        }),
{
    let (a, b) = (world.candidates(c, caps)[i], world.candidates(c, caps)[j]);
    let rank = world.rank(c.key, c.kind);
    let (x, y) = (rank(a), rank(b));
    lemma_in_order(world, c, caps, i, j);
    lemma_common_places(world, c.key, c.kind, a);
    lemma_common_places(world, c.key, c.kind, b);
    lemma_radio_places(world, c.key, a);
    lemma_radio_places(world, c.key, b);
    assert(forall|k: int| 0 <= k < 5 ==> x[k] == y[k]);
    lemma_lex_place(x, y, 5);
    if x[5] == y[5] {
        lemma_lex_place(x, y, 6);
        if x[6] == y[6] {
            lemma_lex_place(x, y, 7);
        }
    }
}

/// Hosts are told apart by whether they are bad.
pub proof fn lemma_split_hosts(alive: Seq<Seq<char>>, bl: Blacklist, now: i128, bad: bool, h: Seq<char>)
    ensures
        split_hosts(alive, bl, now, bad).contains(h) <==> alive.contains(h) && host_bad(bl@.hosts, bl.config, h, now) == bad,
    decreases alive.len(),
{
    if alive.len() > 0 {
        let before = split_hosts(alive.drop_last(), bl, now, bad);
        let all = split_hosts(alive, bl, now, bad);
        lemma_split_hosts(alive.drop_last(), bl, now, bad, h);
        assert(alive =~= alive.drop_last().push(alive.last()));
        assert(alive.contains(h) <==> alive.drop_last().contains(h) || alive.last() == h) by {
            if alive.drop_last().contains(h) {
                let k = choose|k: int| 0 <= k < alive.drop_last().len() && alive.drop_last()[k] == h;
                assert(alive[k] == h);
            }
            if alive.last() == h {
                assert(alive[alive.len() - 1] == h);
            }
            if alive.contains(h) {
                let k = choose|k: int| 0 <= k < alive.len() && alive[k] == h;
                if k < alive.len() - 1 {
                    assert(alive.drop_last()[k] == h);
                }
            }
        }
        if host_bad(bl@.hosts, bl.config, alive.last(), now) == bad {
            assert(all == before.push(alive.last()));
            if before.contains(h) {
                let k = choose|k: int| 0 <= k < before.len() && before[k] == h;
                assert(all[k] == h);
            }
            assert(all[before.len() as int] == alive.last());
            if all.contains(h) {
                let k = choose|k: int| 0 <= k < all.len() && all[k] == h;
                if k < before.len() {
                    assert(before[k] == h);
                }
            }
        }
    }
}

/// Recordings are asked of hosts that are alive, and of bad ones only where all are bad.
pub proof fn law_recordings_are_asked_of_good_hosts(alive: Seq<Seq<char>>, bl: Blacklist, now: i128, h: Seq<char>)
    ensures
        archive_hosts(alive, bl, now).contains(h) ==> alive.contains(h),
        alive.contains(h) && !host_bad(bl@.hosts, bl.config, h, now) ==> archive_hosts(alive, bl, now).contains(h),
        (forall|k: int| 0 <= k < alive.len() ==> host_bad(bl@.hosts, bl.config, #[trigger] alive[k], now)) ==> (alive.contains(h)
            ==> archive_hosts(alive, bl, now).contains(h)),
        (exists|k: int| 0 <= k < alive.len() && !host_bad(bl@.hosts, bl.config, #[trigger] alive[k], now)) ==> (archive_hosts(
            alive,
            bl,
            now,
        ).contains(h) ==> !host_bad(bl@.hosts, bl.config, h, now)),
        archive_hosts(alive, bl, now).len() == 0 ==> alive.len() == 0,
{
    let fine = split_hosts(alive, bl, now, false);
    let poor = split_hosts(alive, bl, now, true);
    lemma_split_hosts(alive, bl, now, false, h);
    lemma_split_hosts(alive, bl, now, true, h);
    if fine.len() > 0 {
        lemma_split_hosts(alive, bl, now, false, fine[0]);
        assert(fine.contains(fine[0]));
    }
    if exists|k: int| 0 <= k < alive.len() && !host_bad(bl@.hosts, bl.config, #[trigger] alive[k], now) {
        let k = choose|k: int| 0 <= k < alive.len() && !host_bad(bl@.hosts, bl.config, #[trigger] alive[k], now);
        lemma_split_hosts(alive, bl, now, false, alive[k]);
        assert(alive.contains(alive[k]));
        assert(fine.len() > 0);
    }
    if alive.len() > 0 {
        assert(alive.contains(alive[0]));
        lemma_split_hosts(alive, bl, now, false, alive[0]);
        lemma_split_hosts(alive, bl, now, true, alive[0]);
    }
}

/// The URL that the client asks for comes first, and all others are kept.
pub proof fn law_forced_url_keeps_the_others(s: Seq<CandView>, i: int)
    requires
        0 <= i < s.len(),
    ensures
        promoted(s, i)[0] == s[i],
        promoted(s, i).to_multiset() == s.to_multiset(),
{
    broadcast use vstd::seq_lib::group_to_multiset_ensures;

    let rest = s.remove(i);
    assert(promoted(s, i) =~= rest.insert(0, s[i]));
    assert(s =~= rest.insert(i, s[i]));
}

/// The URL that is played is not checked again behind the play.
pub proof fn law_played_url_is_not_checked(s: Seq<CandView>, served: int, count: nat, k: int)
    requires
        0 <= served < s.len(),
        forall|i: int, j: int| #![trigger s[i], s[j]] 0 <= i < j < s.len() ==> s[i].url != s[j].url,
        0 <= k < others(s, served, count).len(),
    ensures
        others(s, served, count)[k].url != s[served].url,
{
    let i = if k < served {
        k
    } else {
        k + 1
    };
    assert(s.remove(served)[k] == s[i]);
}

/// The candidate is one that the source gives: its own URL, or the stream on a host that is alive or
/// that listed it.
pub open spec fn given_by(world: World, s: SourceView, c: CandView) -> bool {
    &&& c.stream_id == s.stream_id
    &&& match s.direct_source {
        Some(url) => c.url == url,
        None => c.url == world.client.live_url(c.host, s.stream_id as nat, "m3u8"@) && (texts(world.alive@).contains(c.host)
            || c.host == s.origin_host),
    }
}

proof fn lemma_deduped_from(s: Seq<CandView>, k: int)
    requires
        0 <= k < deduped(s).len(),
    ensures
        s.contains(deduped(s)[k]),
    decreases s.len(),
{
    if s.len() > 0 {
        let before = deduped(s.drop_last());
        if k < before.len() {
            lemma_deduped_from(s.drop_last(), k);
            assert(deduped(s)[k] == before[k]);
            let i = choose|i: int| 0 <= i < s.drop_last().len() && s.drop_last()[i] == before[k];
            assert(s[i] == before[k]);
        } else {
            assert(s[s.len() - 1] == s.last());
        }
    }
}

proof fn lemma_elsewhere_given(world: World, s: SourceView, hosts: Seq<Seq<char>>, k: int)
    requires
        0 <= k < world.elsewhere(s, hosts).len(),
    ensures
        ({
            let c = world.elsewhere(s, hosts)[k];
            &&& c.stream_id == s.stream_id
            &&& c.url == world.client.live_url(c.host, s.stream_id as nat, "m3u8"@)
            &&& hosts.contains(c.host)
            &&& world.allows(c.host, s.stream_id)
        }),
    decreases hosts.len(),
{
    let t = hosts.drop_last();
    let before = world.elsewhere(s, t);
    if k < before.len() {
        lemma_elsewhere_given(world, s, t, k);
        let h = before[k].host;
        let i = choose|i: int| 0 <= i < t.len() && t[i] == h;
        assert(hosts[i] == h);
    } else {
        assert(hosts[hosts.len() - 1] == hosts.last());
    }
}

proof fn lemma_source_given(world: World, s: SourceView, caps: Option<Set<Seq<char>>>, k: int)
    requires
        0 <= k < world.of_source(s, caps).len(),
    ensures
        given_by(world, s, world.of_source(s, caps)[k]),
        world.per_variant ==> world.playable(s.stream_id, caps),
        world.per_variant && s.direct_source is None ==> world.allows(world.of_source(s, caps)[k].host, s.stream_id),
{
    if s.direct_source is None {
        let first = if s.origin_host.len() > 0 && world.allows(s.origin_host, s.stream_id) {
            seq![world.on_host(s.origin_host, s.stream_id)]
        } else {
            Seq::empty()
        };
        if k >= first.len() {
            lemma_elsewhere_given(world, s, texts(world.alive@), k - first.len());
        }
    }
}

proof fn lemma_sources_given(world: World, s: Seq<SourceView>, caps: Option<Set<Seq<char>>>, k: int) -> (j: int)
    requires
        0 <= k < world.of_sources(s, caps).len(),
    ensures
        0 <= j < s.len(),
        given_by(world, s[j], world.of_sources(s, caps)[k]),
        world.per_variant ==> world.playable(s[j].stream_id, caps),
        world.per_variant && s[j].direct_source is None ==> world.allows(world.of_sources(s, caps)[k].host, s[j].stream_id),
    decreases s.len(),
{
    let before = world.of_sources(s.drop_last(), caps);
    if k < before.len() {
        let j = lemma_sources_given(world, s.drop_last(), caps, k);
        assert(s.drop_last()[j] == s[j]);
        j
    } else {
        lemma_source_given(world, s.last(), caps, k - before.len());
        s.len() - 1
    }
}

/// Every candidate for a channel is given by one of its sources. Where streams are left out per
/// variant, the client can play the stream of each, and its host can serve it.
pub proof fn law_candidates_are_given_by_sources(world: World, c: ChannelView, caps: Option<Set<Seq<char>>>, k: int)
    requires
        0 <= k < world.candidates(c, caps).len(),
    ensures
        exists|j: int|
            0 <= j < c.sources.len() && given_by(world, #[trigger] c.sources[j], world.candidates(c, caps)[k]),
        world.per_variant && caps is Some ==> forall|t: Seq<char>| #[trigger]
            world.scope().asks(world.candidates(c, caps)[k].stream_id, t) ==> caps->0.contains(t),
{
    let all = world.of_sources(c.sources, caps);
    let d = deduped(all);
    let r = world.candidates(c, caps);
    lemma_ranked_contains(d, world.rank(c.key, c.kind), r[k]);
    assert(r.contains(r[k]));
    let i = choose|i: int| 0 <= i < d.len() && d[i] == r[k];
    lemma_deduped_from(all, i);
    let x = choose|x: int| 0 <= x < all.len() && all[x] == d[i];
    let j = lemma_sources_given(world, c.sources, caps, x);
    assert(given_by(world, c.sources[j], r[k]));
}

} // verus!
