//! How much is known of what each stream on each host asks for.
use vstd::prelude::*;
use crate::api::fine_hosts;
use crate::blacklist::Blacklist;
use crate::candidates::split_hosts;
use crate::canonical::{CanonicalChannel, ChannelView, SourceView, channel_views, source_views};
use crate::catalog::CatalogSnapshot;
use crate::clock::difference;
use crate::measured::{ExcessRefsState, MeasuredStore, quality, window};
use crate::order::{Ranked, codes, is_ranked, law_ranked, lemma_codes_injective, lemma_lex_total};
use crate::order::{lemma_ranked_contains, lemma_ranked_distinct, lex_lt, own_rank, ranked_by, sort_ranked};
use crate::order::text_before;
use crate::text::{chars_of, owned, texts};
use crate::xtream::ChannelKind;

verus! {

/// A stream on a host, and what is known of it.
#[derive(Debug)]
pub struct ReadinessEntry {
    pub stream_id: u64,
    pub host: String,
    /// The channels that the stream belongs to.
    pub channel_keys: Vec<String>,
    pub samples_count: usize,
    pub oldest_sample_age_secs: Option<i64>,
    pub newest_sample_age_secs: Option<i64>,
    /// Capabilities, each with whether the stream asks for it.
    pub states: Vec<(String, String)>,
}

/// How much is known.
#[derive(Debug)]
pub struct CapsReadinessDto {
    pub total_pairs: usize,
    /// The pairs of which it is known what they ask for.
    pub decisive_pairs: usize,
    pub entries: Vec<ReadinessEntry>,
}

/// A stream on a host, for a channel.
pub struct Pairing {
    pub stream_id: u64,
    pub host: Seq<char>,
    pub key: Seq<char>,
}

/// A source on each host.
pub open spec fn source_pairings(key: Seq<char>, s: SourceView, hosts: Seq<Seq<char>>) -> Seq<Pairing> {
    if s.direct_source is Some {
        Seq::empty()
    } else {
        hosts.map_values(|h: Seq<char>| Pairing { stream_id: s.stream_id, host: h, key })
    }
}

/// The sources of a channel, each on each host.
pub open spec fn channel_pairings(key: Seq<char>, s: Seq<SourceView>, hosts: Seq<Seq<char>>) -> Seq<Pairing>
    decreases s.len(),
{
    if s.len() == 0 {
        Seq::empty()
    } else {
        channel_pairings(key, s.drop_last(), hosts) + source_pairings(key, s.last(), hosts)
    }
}

/// The sources of all television channels, each on each host.
pub open spec fn pairings(cs: Seq<ChannelView>, hosts: Seq<Seq<char>>) -> Seq<Pairing>
    decreases cs.len(),
{
    if cs.len() == 0 {
        Seq::empty()
    } else {
        pairings(cs.drop_last(), hosts) + if cs.last().kind == ChannelKind::Radio {
            Seq::empty()
        } else {
            channel_pairings(cs.last().key, cs.last().sources, hosts)
        }
    }
}

/// The channels of a stream on a host.
pub open spec fn keys_for(p: Seq<Pairing>, stream_id: u64, host: Seq<char>) -> Seq<Seq<char>>
    decreases p.len(),
{
    if p.len() == 0 {
        Seq::empty()
    } else {
        let before = keys_for(p.drop_last(), stream_id, host);
        if p.last().stream_id == stream_id && p.last().host == host {
            before.push(p.last().key)
        } else {
            before
        }
    }
}

/// The whole seconds from `at` to `now`, rounded towards zero, as far as they go.
pub open spec fn age_secs(now: int, at: int) -> i64 {
    let d = now - at;
    if d >= 0 {
        if d / 1000000000 <= i64::MAX {
            (d / 1000000000) as i64
        } else {
            i64::MAX
        }
    } else {
        let s = (-d) / 1000000000;
        if s <= i64::MAX {
            (-s) as i64
        } else {
            (-(i64::MAX as int)) as i64
        }
    }
}

/// What a state is called.
pub open spec fn state_name(s: ExcessRefsState) -> Seq<char> {
    match s {
        ExcessRefsState::On => "on"@,
        ExcessRefsState::Off => "off"@,
        ExcessRefsState::NotApplicable => "n/a"@,
        ExcessRefsState::Unknown => "unknown"@,
    }
}

/// Whether a stream on a host uses more reference frames than its level allows.
pub open spec fn excess_of(store: MeasuredStore, stream_id: u64, host: Seq<char>) -> ExcessRefsState {
    match quality(window(store@, stream_id, host)) {
        Some(q) => q.h264_excess_refs_state,
        None => ExcessRefsState::Unknown,
    }
}

/// The entry tells what is known of its stream and host.
pub open spec fn tells(e: ReadinessEntry, p: Seq<Pairing>, store: MeasuredStore, now: i128) -> bool {
    let w = window(store@, e.stream_id, e.host@);
    &&& texts(e.channel_keys@) == keys_for(p, e.stream_id, e.host@)
    &&& e.channel_keys@.len() > 0
    &&& e.samples_count == (match quality(w) {
        Some(q) => q.samples_count as int,
        None => 0,
    })
    &&& e.newest_sample_age_secs == (if w.len() > 0 {
        Some(age_secs(now as int, w.last().at as int))
    } else {
        None
    })
    &&& e.oldest_sample_age_secs == (if w.len() > 0 {
        Some(age_secs(now as int, w[0].at as int))
    } else {
        None
    })
    &&& e.states@.len() == 1
    &&& e.states@[0].0@ == "h264_excess_refs"@
    &&& e.states@[0].1@ == state_name(excess_of(store, e.stream_id, e.host@))
}

/// The first entry comes before the second, by stream id and then by host.
pub open spec fn comes_before(a: ReadinessEntry, b: ReadinessEntry) -> bool {
    a.stream_id < b.stream_id || (a.stream_id == b.stream_id && lex_lt(codes(a.host@), codes(b.host@)))
}

/// The entries tell of all pairs, each once and in order.
pub open spec fn lists_pairs(v: Seq<ReadinessEntry>, p: Seq<Pairing>, store: MeasuredStore, now: i128) -> bool {
    &&& forall|i: int| 0 <= i < v.len() ==> tells(#[trigger] v[i], p, store, now)
    &&& forall|i: int, j: int| #![trigger v[i], v[j]] 0 <= i < j < v.len() ==> comes_before(v[i], v[j])
    &&& forall|id: u64, h: Seq<char>| #[trigger]
        keys_for(p, id, h).len() > 0 ==> exists|i: int| 0 <= i < v.len() && (#[trigger] v[i]).stream_id == id && v[i].host@ == h
}

/// Of the first `n` entries, those of which it is known whether they use more reference frames
/// than their level allows.
pub open spec fn decisive(v: Seq<ReadinessEntry>, store: MeasuredStore, n: int) -> nat
    decreases n,
{
    if n <= 0 {
        0
    } else {
        decisive(v, store, n - 1) + if excess_of(store, v[n - 1].stream_id, v[n - 1].host@) != ExcessRefsState::Unknown {
            1nat
        } else {
            0
        }
    }
}

// --- Gathering the pairs -------------------------------------------------------------------------------

/// A stream on a host, and its channels.
pub struct Pair {
    pub stream_id: u64,
    pub host: String,
    pub keys: Vec<String>,
}

impl Ranked for Pair {
    open spec fn rank(&self) -> Seq<int> {
        seq![self.stream_id as int] + codes(self.host@)
    }

    fn precedes(&self, other: &Self) -> (r: bool) {
        proof {
            lemma_pair_rank(self.stream_id as int, codes(self.host@), other.stream_id as int, codes(other.host@));
        }
        if self.stream_id != other.stream_id {
            self.stream_id < other.stream_id
        } else {
            text_before(&chars_of(&self.host), &chars_of(&other.host))
        }
    }
}

proof fn lemma_pair_rank(a: int, x: Seq<int>, b: int, y: Seq<int>)
    ensures
        lex_lt(seq![a] + x, seq![b] + y) == (a < b || (a == b && lex_lt(x, y))),
{
    assert((seq![a] + x).skip(1) =~= x);
    assert((seq![b] + y).skip(1) =~= y);
}

/// The list holds each pair once, with its channels.
pub open spec fn gathers(v: Seq<Pair>, p: Seq<Pairing>) -> bool {
    &&& forall|i: int|
        0 <= i < v.len() ==> texts((#[trigger] v[i]).keys@) == keys_for(p, v[i].stream_id, v[i].host@) && v[i].keys@.len() > 0
    &&& forall|i: int, j: int|
        #![trigger v[i], v[j]]
        0 <= i < j < v.len() ==> v[i].stream_id != v[j].stream_id || v[i].host@ != v[j].host@
    &&& forall|id: u64, h: Seq<char>| #[trigger]
        keys_for(p, id, h).len() > 0 ==> exists|i: int| 0 <= i < v.len() && (#[trigger] v[i]).stream_id == id && v[i].host@ == h
}

fn add_pair(v: &mut Vec<Pair>, stream_id: u64, host: &String, key: &String, Ghost(p): Ghost<Seq<Pairing>>)
    requires
        gathers(old(v)@, p),
    ensures
        gathers(final(v)@, p.push(Pairing { stream_id, host: host@, key: key@ })),
{
    let ghost q = p.push(Pairing { stream_id, host: host@, key: key@ });
    let ghost was = v@;
    proof {
        assert(q.drop_last() =~= p);
        assert(q.last() == (Pairing { stream_id, host: host@, key: key@ }));
        assert forall|id: u64, h: Seq<char>| #[trigger] keys_for(q, id, h) == if id == stream_id && h == host@ {
            keys_for(p, id, h).push(key@)
        } else {
            keys_for(p, id, h)
        } by {}
    }
    let mut i: usize = 0;
    while i < v.len() && !(v[i].stream_id == stream_id && v[i].host == *host)
        invariant
            i <= v@.len(),
            v@ == was,
            forall|j: int| 0 <= j < i ==> !((#[trigger] v@[j]).stream_id == stream_id && v@[j].host@ == host@),
        decreases v@.len() - i,
    {
        i = i + 1;
    }
    if i < v.len() {
        let ghost old_keys = was[i as int].keys@;
        v[i].keys.push(key.clone());
        proof {
            assert(texts(v@[i as int].keys@) =~= texts(old_keys).push(key@));
            assert forall|j: int| 0 <= j < v@.len() implies texts((#[trigger] v@[j]).keys@) == keys_for(
                q,
                v@[j].stream_id,
                v@[j].host@,
            ) && v@[j].keys@.len() > 0 by {
                if j != i {
                    assert(v@[j] == was[j]);
                    if j < i {
                        assert(was[j].stream_id != was[i as int].stream_id || was[j].host@ != was[i as int].host@);
                    } else {
                        assert(was[i as int].stream_id != was[j].stream_id || was[i as int].host@ != was[j].host@);
                    }
                }
            }
            assert forall|a: int, b: int| #![trigger v@[a], v@[b]] 0 <= a < b < v@.len() implies v@[a].stream_id
                != v@[b].stream_id || v@[a].host@ != v@[b].host@ by {
                assert(was[a].stream_id != was[b].stream_id || was[a].host@ != was[b].host@);
            }
            assert forall|id: u64, h: Seq<char>| #[trigger] keys_for(q, id, h).len() > 0 implies exists|k: int|
                0 <= k < v@.len() && (#[trigger] v@[k]).stream_id == id && v@[k].host@ == h by {
                if id == stream_id && h == host@ {
                    assert(v@[i as int].stream_id == id);
                } else {
                    assert(keys_for(p, id, h).len() > 0);
                    let k = choose|k: int| 0 <= k < was.len() && (#[trigger] was[k]).stream_id == id && was[k].host@ == h;
                    assert(v@[k].stream_id == id && v@[k].host@ == h);
                }
            }
        }
    } else {
        let keys = vec![key.clone()];
        proof {
            if keys_for(p, stream_id, host@).len() > 0 {
                let k = choose|k: int| 0 <= k < was.len() && (#[trigger] was[k]).stream_id == stream_id && was[k].host@ == host@;
                assert(v@[k].stream_id == stream_id);
            }
            assert(texts(keys@) =~= keys_for(q, stream_id, host@));
        }
        v.push(Pair { stream_id, host: host.clone(), keys });
        proof {
            assert forall|j: int| 0 <= j < v@.len() implies texts((#[trigger] v@[j]).keys@) == keys_for(
                q,
                v@[j].stream_id,
                v@[j].host@,
            ) && v@[j].keys@.len() > 0 by {
                if j < was.len() {
                    assert(v@[j] == was[j]);
                }
            }
            assert forall|id: u64, h: Seq<char>| #[trigger] keys_for(q, id, h).len() > 0 implies exists|k: int|
                0 <= k < v@.len() && (#[trigger] v@[k]).stream_id == id && v@[k].host@ == h by {
                if id == stream_id && h == host@ {
                    assert(v@[was.len() as int].stream_id == id);
                } else {
                    assert(keys_for(p, id, h).len() > 0);
                    let k = choose|k: int| 0 <= k < was.len() && (#[trigger] was[k]).stream_id == id && was[k].host@ == h;
                    assert(v@[k] == was[k]);
                }
            }
            assert forall|a: int, b: int| #![trigger v@[a], v@[b]] 0 <= a < b < v@.len() implies v@[a].stream_id
                != v@[b].stream_id || v@[a].host@ != v@[b].host@ by {
                assert(v@[a] == was[a]);
                if b < was.len() {
                    assert(v@[b] == was[b]);
                }
            }
        }
    }
}

fn add_channel(v: &mut Vec<Pair>, c: &CanonicalChannel, hosts: &[String], Ghost(p): Ghost<Seq<Pairing>>)
    requires
        gathers(old(v)@, p),
    ensures
        gathers(final(v)@, p + channel_pairings(c.key@, c@.sources, texts(hosts@))),
{
    let ghost names = texts(hosts@);
    let ghost sources = source_views(c.sources@);
    let mut i: usize = 0;
    proof {
        assert(p + channel_pairings(c.key@, sources.take(0), names) =~= p);
    }
    while i < c.sources.len()
        invariant
            i <= c.sources@.len(),
            names == texts(hosts@),
            sources == source_views(c.sources@),
            gathers(v@, p + channel_pairings(c.key@, sources.take(i as int), names)),
        decreases c.sources@.len() - i,
    {
        let s = &c.sources[i];
        let ghost start = p + channel_pairings(c.key@, sources.take(i as int), names);
        let ghost own = source_pairings(c.key@, s@, names);
        proof {
            assert(sources[i as int] == s@);
            assert(sources.take(i + 1).drop_last() =~= sources.take(i as int));
            assert(sources.take(i + 1).last() == s@);
            assert(p + channel_pairings(c.key@, sources.take(i + 1), names) =~= start + own);
        }
        if s.direct_source.is_none() {
            let mut j: usize = 0;
            proof {
                assert(start + own.take(0) =~= start);
            }
            while j < hosts.len()
                invariant
                    j <= hosts@.len(),
                    names == texts(hosts@),
                    own == source_pairings(c.key@, s@, names),
                    s@.direct_source is None,
                    gathers(v@, start + own.take(j as int)),
                decreases hosts@.len() - j,
            {
                proof {
                    assert(names[j as int] == hosts@[j as int]@);
                    assert(start + own.take(j + 1) =~= (start + own.take(j as int)).push(own[j as int]));
                }
                add_pair(v, s.stream_id, &hosts[j], &c.key, Ghost(start + own.take(j as int)));
                j = j + 1;
            }
            proof {
                assert(own.take(j as int) =~= own);
            }
        } else {
            proof {
                assert(start + own =~= start);
            }
        }
        i = i + 1;
    }
    proof {
        assert(sources.take(i as int) =~= sources);
    }
}

fn gather(snap: &CatalogSnapshot, hosts: &[String]) -> (r: Vec<Pair>)
    ensures
        gathers(r@, pairings(channel_views(snap.channels@), texts(hosts@))),
{
    let ghost cs = channel_views(snap.channels@);
    let ghost names = texts(hosts@);
    let mut v: Vec<Pair> = Vec::new();
    let mut i: usize = 0;
    proof {
        assert(pairings(cs.take(0), names) =~= Seq::empty());
        assert forall|id: u64, h: Seq<char>| #[trigger] keys_for(Seq::empty(), id, h).len() == 0 by {}
    }
    while i < snap.channels.len()
        invariant
            i <= snap.channels@.len(),
            cs == channel_views(snap.channels@),
            names == texts(hosts@),
            gathers(v@, pairings(cs.take(i as int), names)),
        decreases snap.channels@.len() - i,
    {
        let c = &snap.channels[i];
        let ghost p = pairings(cs.take(i as int), names);
        proof {
            assert(cs[i as int] == c@);
            assert(cs.take(i + 1).drop_last() =~= cs.take(i as int));
            assert(cs.take(i + 1).last() == c@);
            assert(p + Seq::empty() =~= p);
        }
        if c.kind != ChannelKind::Radio {
            add_channel(&mut v, c, hosts, Ghost(p));
        }
        i = i + 1;
    }
    proof {
        assert(cs.take(i as int) =~= cs);
    }
    v
}

fn age_of(now: i128, at: i128) -> (r: i64)
    ensures
        r == age_secs(now as int, at as int),
{
    let (negative, size) = difference(now, at);
    let secs: u128 = size / 1000000000;
    let s: i64 = if secs <= i64::MAX as u128 {
        secs as i64
    } else {
        i64::MAX
    };
    if negative {
        -s
    } else {
        s
    }
}

fn state_label(s: ExcessRefsState) -> (r: &'static str)
    ensures
        r@ == state_name(s),
{
    match s {
        ExcessRefsState::On => "on",
        ExcessRefsState::Off => "off",
        ExcessRefsState::NotApplicable => "n/a",
        ExcessRefsState::Unknown => "unknown",
    }
}

proof fn lemma_sorted_pairs(v: Seq<Pair>, p: Seq<Pairing>)
    requires
        gathers(v, p),
    ensures
        gathers(ranked_by(v, own_rank()), p),
        forall|i: int, j: int|
            #![trigger ranked_by(v, own_rank::<Pair>())[i], ranked_by(v, own_rank::<Pair>())[j]]
            0 <= i < j < v.len() ==> {
                let r = ranked_by(v, own_rank::<Pair>());
                r[i].stream_id < r[j].stream_id || (r[i].stream_id == r[j].stream_id && lex_lt(
                    codes(r[i].host@),
                    codes(r[j].host@),
                ))
            },
{
    let rank = own_rank::<Pair>();
    let r = ranked_by(v, rank);
    let name = |q: Pair| (q.stream_id, q.host@);
    law_ranked(v, rank);
    assert forall|i: int, j: int| #![trigger v[i], v[j]] 0 <= i < v.len() && 0 <= j < v.len() && i != j implies name(v[i])
        != name(v[j]) by {
        if i < j {
            assert(v[i].stream_id != v[j].stream_id || v[i].host@ != v[j].host@);
        } else {
            assert(v[j].stream_id != v[i].stream_id || v[j].host@ != v[i].host@);
        }
    }
    lemma_ranked_distinct(v, rank, name);
    assert forall|i: int| 0 <= i < r.len() implies texts((#[trigger] r[i]).keys@) == keys_for(p, r[i].stream_id, r[i].host@)
        && r[i].keys@.len() > 0 by {
        lemma_ranked_contains(v, rank, r[i]);
        assert(r.contains(r[i]));
        let k = choose|k: int| 0 <= k < v.len() && v[k] == r[i];
        assert(texts(v[k].keys@) == keys_for(p, v[k].stream_id, v[k].host@));
    }
    assert forall|id: u64, h: Seq<char>| #[trigger] keys_for(p, id, h).len() > 0 implies exists|i: int|
        0 <= i < r.len() && (#[trigger] r[i]).stream_id == id && r[i].host@ == h by {
        let k = choose|k: int| 0 <= k < v.len() && (#[trigger] v[k]).stream_id == id && v[k].host@ == h;
        lemma_ranked_contains(v, rank, v[k]);
        assert(v.contains(v[k]));
        let i = choose|i: int| 0 <= i < r.len() && r[i] == v[k];
        assert(r[i].stream_id == id);
    }
    assert forall|i: int, j: int| #![trigger r[i], r[j]] 0 <= i < j < v.len() implies r[i].stream_id < r[j].stream_id || (
    r[i].stream_id == r[j].stream_id && lex_lt(codes(r[i].host@), codes(r[j].host@))) by {
        assert(is_ranked(r, rank));
        assert(!lex_lt(rank(r[j]), rank(r[i])));
        lemma_pair_rank(r[j].stream_id as int, codes(r[j].host@), r[i].stream_id as int, codes(r[i].host@));
        lemma_lex_total(codes(r[i].host@), codes(r[j].host@));
        assert(name(r[i]) != name(r[j]));
        if codes(r[i].host@) == codes(r[j].host@) {
            lemma_codes_injective(r[i].host@, r[j].host@);
        }
    }
    assert forall|i: int, j: int| #![trigger r[i], r[j]] 0 <= i < j < r.len() implies r[i].stream_id != r[j].stream_id || r[i].host@
        != r[j].host@ by {
        assert(name(r[i]) != name(r[j]));
    }
}

/// How much is known of what each stream asks for on each of the hosts that are alive and not
/// bad.
pub fn admin_caps_readiness(
    snap: &CatalogSnapshot,
    measured: &MeasuredStore,
    blacklist: &Blacklist,
    alive: &[String],
    now: i128,
) -> (r: CapsReadinessDto)
    requires
        blacklist.wf(),
    ensures
        lists_pairs(
            r.entries@,
            pairings(channel_views(snap.channels@), split_hosts(texts(alive@), *blacklist, now, false)),
            *measured,
            now,
        ),
        r.total_pairs == r.entries@.len(),
        r.decisive_pairs == decisive(r.entries@, *measured, r.entries@.len() as int),
{
    let hosts = fine_hosts(alive, blacklist, now);
    let ghost p = pairings(channel_views(snap.channels@), texts(hosts@));
    let pairs = gather(snap, &hosts);
    proof {
        lemma_sorted_pairs(pairs@, p);
        law_ranked(pairs@, own_rank());
    }
    let ghost found = pairs@;
    let pairs = sort_ranked(pairs);
    let ghost items = pairs@;
    let total: usize = pairs.len();
    let mut entries: Vec<ReadinessEntry> = Vec::new();
    let mut count: usize = 0;
    for pair in it: pairs
        invariant
            it.seq() == items,
            gathers(items, p),
            items.len() == total,
            entries@.len() == it.index(),
            count <= entries@.len(),
            count == decisive(entries@, *measured, entries@.len() as int),
            forall|i: int|
                0 <= i < entries@.len() ==> tells(#[trigger] entries@[i], p, *measured, now) && entries@[i].stream_id
                    == items[i].stream_id && entries@[i].host@ == items[i].host@,
    {
        let ghost was = entries@;
        let ghost k = it.index();
        proof {
            assert(items[k] == pair);
        }
        let q = measured.get(pair.stream_id, &pair.host);
        let newest = match measured.most_recent_at(pair.stream_id, &pair.host) {
            Some(at) => Some(age_of(now, at)),
            None => None,
        };
        let oldest = match measured.oldest_sample_at(pair.stream_id, &pair.host) {
            Some(at) => Some(age_of(now, at)),
            None => None,
        };
        let (samples_count, state) = match q {
            Some(q) => (q.samples_count, q.h264_excess_refs_state),
            None => (0, ExcessRefsState::Unknown),
        };
        if state != ExcessRefsState::Unknown {
            count = count + 1;
        }
        let e = ReadinessEntry {
            stream_id: pair.stream_id,
            host: pair.host,
            channel_keys: pair.keys,
            samples_count,
            oldest_sample_age_secs: oldest,
            newest_sample_age_secs: newest,
            states: vec![(owned("h264_excess_refs"), owned(state_label(state)))],
        };
        proof {
            assert(tells(e, p, *measured, now));
        }
        entries.push(e);
        proof {
            assert forall|i: int| 0 <= i <= was.len() implies decisive(entries@, *measured, i) == decisive(was, *measured, i) by {
                lemma_decisive_prefix(entries@, was, *measured, i);
            }
        }
    }
    proof {
        assert forall|i: int, j: int| #![trigger entries@[i], entries@[j]] 0 <= i < j < entries@.len() implies comes_before(
            entries@[i],
            entries@[j],
        ) by {
            assert(items == ranked_by(found, own_rank::<Pair>()));
            assert(items[i].stream_id == entries@[i].stream_id && items[j].stream_id == entries@[j].stream_id);
        }
        assert forall|i: int| 0 <= i < entries@.len() implies tells(#[trigger] entries@[i], p, *measured, now) by {}
        assert forall|id: u64, h: Seq<char>| #[trigger] keys_for(p, id, h).len() > 0 implies exists|i: int|
            0 <= i < entries@.len() && (#[trigger] entries@[i]).stream_id == id && entries@[i].host@ == h by {
            let i = choose|i: int| 0 <= i < items.len() && (#[trigger] items[i]).stream_id == id && items[i].host@ == h;
            assert(entries@[i].stream_id == id);
        }
        assert(lists_pairs(entries@, p, *measured, now));
    }
    let total_pairs: usize = entries.len();
    CapsReadinessDto { total_pairs, decisive_pairs: count, entries }
}

proof fn lemma_decisive_prefix(a: Seq<ReadinessEntry>, b: Seq<ReadinessEntry>, store: MeasuredStore, n: int)
    requires
        n <= b.len() <= a.len(),
        forall|i: int| 0 <= i < b.len() ==> #[trigger] a[i] == b[i],
    ensures
        decisive(a, store, n) == decisive(b, store, n),
    decreases n,
{
    if n > 0 {
        lemma_decisive_prefix(a, b, store, n - 1);
        assert(a[n - 1] == b[n - 1]);
    }
}

/// Ages are whole seconds, and below zero for what lies ahead.
pub proof fn law_ages_are_whole_seconds(now: int, at: int)
    requires
        -1000000000 * i64::MAX < now - at < 1000000000 * i64::MAX,
    ensures
        at <= now ==> age_secs(now, at) * 1000000000 <= now - at < (age_secs(now, at) + 1) * 1000000000,
        now <= at ==> -age_secs(now, at) * 1000000000 <= at - now < (-age_secs(now, at) + 1) * 1000000000,
{
}

/// Each source of television that has no URL of its own is listed on each host, for its channel; radio
/// is not.
pub proof fn law_television_is_listed_on_each_host(cs: Seq<ChannelView>, hosts: Seq<Seq<char>>, k: int, i: int, h: int)
    requires
        0 <= k < cs.len(),
        0 <= i < cs[k].sources.len(),
        0 <= h < hosts.len(),
        cs[k].kind == ChannelKind::Tv,
        cs[k].sources[i].direct_source is None,
    ensures
        pairings(cs, hosts).contains(Pairing { stream_id: cs[k].sources[i].stream_id, host: hosts[h], key: cs[k].key }),
    decreases cs.len(),
{
    let t = cs.drop_last();
    let a = pairings(t, hosts);
    let x = Pairing { stream_id: cs[k].sources[i].stream_id, host: hosts[h], key: cs[k].key };
    let all = pairings(cs, hosts);
    if k < t.len() {
        law_television_is_listed_on_each_host(t, hosts, k, i, h);
        let j = choose|j: int| 0 <= j < a.len() && a[j] == x;
        assert(all[j] == x);
    } else {
        lemma_source_is_listed(cs[k].key, cs[k].sources, hosts, i, h);
        let b = channel_pairings(cs[k].key, cs[k].sources, hosts);
        let j = choose|j: int| 0 <= j < b.len() && b[j] == x;
        assert(all[a.len() + j] == x);
    }
}

proof fn lemma_source_is_listed(key: Seq<char>, s: Seq<SourceView>, hosts: Seq<Seq<char>>, i: int, h: int)
    requires
        0 <= i < s.len(),
        0 <= h < hosts.len(),
        s[i].direct_source is None,
    ensures
        channel_pairings(key, s, hosts).contains(Pairing { stream_id: s[i].stream_id, host: hosts[h], key }),
    decreases s.len(),
{
    let t = s.drop_last();
    let a = channel_pairings(key, t, hosts);
    let x = Pairing { stream_id: s[i].stream_id, host: hosts[h], key };
    let all = channel_pairings(key, s, hosts);
    if i < t.len() {
        lemma_source_is_listed(key, t, hosts, i, h);
        let j = choose|j: int| 0 <= j < a.len() && a[j] == x;
        assert(all[j] == x);
    } else {
        assert(all[a.len() + h] == x);
    }
}

/// A list of radio alone lists nothing, and neither do sources with URLs of their own.
pub proof fn law_radio_is_not_listed(c: ChannelView, hosts: Seq<Seq<char>>, s: SourceView)
    ensures
        c.kind == ChannelKind::Radio ==> pairings(seq![c], hosts).len() == 0,
        s.direct_source is Some ==> source_pairings(c.key, s, hosts).len() == 0,
{
    reveal_with_fuel(pairings, 2);
    assert(seq![c].drop_last() =~= Seq::empty());
}

/// The channels of a stream on a host are those of the pairs with both.
pub proof fn law_channels_are_told_by_their_pairs(p: Seq<Pairing>, stream_id: u64, host: Seq<char>)
    ensures
        keys_for(p, stream_id, host) == p.filter(|x: Pairing| x.stream_id == stream_id && x.host == host).map_values(
            |x: Pairing| x.key,
        ),
    decreases p.len(),
{
    reveal(Seq::filter);
    let f = |x: Pairing| x.stream_id == stream_id && x.host == host;
    let g = |x: Pairing| x.key;
    if p.len() > 0 {
        law_channels_are_told_by_their_pairs(p.drop_last(), stream_id, host);
        if f(p.last()) {
            assert(p.drop_last().filter(f).push(p.last()).map_values(g) =~= p.drop_last().filter(f).map_values(g).push(p.last().key));
        }
        assert(keys_for(p, stream_id, host) =~= p.filter(f).map_values(g));
    } else {
        assert(keys_for(p, stream_id, host) =~= p.filter(f).map_values(g));
    }
}

/// What is known of a stream's reference frames is what its latest quality says, and unknown where
/// nothing was measured.
pub proof fn law_unmeasured_streams_are_unknown(store: MeasuredStore, stream_id: u64, host: Seq<char>)
    ensures
        quality(window(store@, stream_id, host)) is None ==> state_name(excess_of(store, stream_id, host)) == "unknown"@,
        (quality(window(store@, stream_id, host)) matches Some(q) && q.h264_excess_refs_state == ExcessRefsState::On)
            ==> state_name(excess_of(store, stream_id, host)) == "on"@,
        (quality(window(store@, stream_id, host)) matches Some(q) && q.h264_excess_refs_state == ExcessRefsState::Off)
            ==> state_name(excess_of(store, stream_id, host)) == "off"@,
{
}

} // verus!
