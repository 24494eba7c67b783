//! The list of channels that a client gets.
use vstd::prelude::*;
use crate::candidates::{World, channel_caps_v2, opt_texts};
use crate::canonical::{CanonicalChannel, CanonicalSource, ChannelView, SourceView, best_archive, channel_views};
use crate::canonical::{marks, quality_tier, source_views, tier};
use crate::caps_cache::{CapsSnapshot, caps_map, names};
use crate::catalog::CatalogSnapshot;
use crate::default_order::Curation;
use crate::order::{Ranked, codes, is_ranked, law_ranked, lemma_ranked_by_map_on, lemma_sorted, lex_lt, own_rank};
use crate::order::{ranked_by, sort_ranked, sorted, text_before};
use crate::outside::{lowercase, to_lowercase};
use crate::radio::RadioFormat;
use crate::request::{first_format, radio_format_of};
use crate::table::{Table, TextMap};
use crate::text::{chars_of, has_text, opt_text, owned, push_text, texts, trim_end_char, trim_end_matches};
use crate::xtream::ChannelKind;

verus! {

/// A logo that more channels than this share is none.
pub const PLACEHOLDER_THRESHOLD: usize = 10;

/// A channel as clients see it.
#[derive(Debug)]
pub struct ChannelDto {
    pub key: String,
    pub name: String,
    pub kind: ChannelKind,
    /// What a client must be able to play.
    pub caps_required: Vec<String>,
    /// How radio arrives.
    pub format: Option<&'static str>,
    pub logo: Option<String>,
    pub default_rank: Option<usize>,
    pub source_count: usize,
    pub play_url: String,
    pub tv_archive: bool,
    pub tv_archive_duration: Option<u32>,
    pub tv_archive_quality: Option<&'static str>,
}

/// The contents of a `ChannelDto`.
pub struct DtoView {
    pub key: Seq<char>,
    pub name: Seq<char>,
    pub kind: ChannelKind,
    pub caps_required: Seq<Seq<char>>,
    pub format: Option<Seq<char>>,
    pub logo: Option<Seq<char>>,
    pub default_rank: Option<usize>,
    pub source_count: nat,
    pub play_url: Seq<char>,
    pub tv_archive: bool,
    pub tv_archive_duration: Option<u32>,
    pub tv_archive_quality: Option<Seq<char>>,
}

/// The text of a name that may be missing.
pub open spec fn opt_name(o: Option<&'static str>) -> Option<Seq<char>> {
    match o {
        Some(s) => Some(s@),
        None => None,
    }
}

impl View for ChannelDto {
    type V = DtoView;

    open spec fn view(&self) -> DtoView {
        DtoView {
            key: self.key@,
            name: self.name@,
            kind: self.kind,
            caps_required: texts(self.caps_required@),
            format: opt_name(self.format),
            logo: opt_text(self.logo),
            default_rank: self.default_rank,
            source_count: self.source_count as nat,
            play_url: self.play_url@,
            tv_archive: self.tv_archive,
            tv_archive_duration: self.tv_archive_duration,
            tv_archive_quality: opt_name(self.tv_archive_quality),
        }
    }
}

/// The contents of each channel.
pub open spec fn dto_views(v: Seq<ChannelDto>) -> Seq<DtoView> {
    v.map_values(|d: ChannelDto| d@)
}

/// The name of a format.
pub open spec fn format_name(f: RadioFormat) -> Seq<char> {
    match f {
        RadioFormat::Hls => "hls"@,
        RadioFormat::Mp3 => "mp3"@,
        RadioFormat::Aac => "aac"@,
        RadioFormat::Icecast => "icecast"@,
        RadioFormat::Playlist => "playlist"@,
    }
}

pub fn radio_format_label(fmt: RadioFormat) -> (r: &'static str)
    ensures
        r@ == format_name(fmt),
{
    match fmt {
        RadioFormat::Hls => "hls",
        RadioFormat::Mp3 => "mp3",
        RadioFormat::Aac => "aac",
        RadioFormat::Icecast => "icecast",
        RadioFormat::Playlist => "playlist",
    }
}

// --- Recordings --------------------------------------------------------------------------------------

/// Of the sources with an archive, the one with the highest score, the last of several.
pub open spec fn archive_index(s: Seq<SourceView>) -> Option<int>
    decreases s.len(),
{
    if s.len() == 0 {
        None
    } else {
        let before = archive_index(s.drop_last());
        if !s.last().tv_archive {
            before
        } else {
            match before {
                Some(i) => if s[i].score <= s.last().score {
                    Some(s.len() - 1)
                } else {
                    before
                },
                None => Some(s.len() - 1),
            }
        }
    }
}

proof fn lemma_archive_index(s: Seq<SourceView>)
    ensures
        match archive_index(s) {
            Some(i) => {
                &&& 0 <= i < s.len()
                &&& s[i].tv_archive
                &&& forall|j: int| 0 <= j < s.len() && (#[trigger] s[j]).tv_archive ==> s[j].score <= s[i].score
                &&& forall|j: int| i < j < s.len() && (#[trigger] s[j]).tv_archive ==> s[j].score < s[i].score
            },
            None => forall|j: int| 0 <= j < s.len() ==> !(#[trigger] s[j]).tv_archive,
        },
    decreases s.len(),
{
    if s.len() > 0 {
        let t = s.drop_last();
        lemma_archive_index(t);
        assert forall|j: int| 0 <= j < t.len() implies #[trigger] s[j] == t[j] by {}
    }
}

/// The source whose recordings a channel offers.
fn archive_source(channel: &CanonicalChannel) -> (r: Option<&CanonicalSource>)
    ensures
        match r {
            Some(s) => archive_index(channel@.sources) matches Some(i) && 0 <= i < channel@.sources.len()
                && channel@.sources[i] == s@,
            None => archive_index(channel@.sources) is None,
        },
{
    let r = channel.pick_archive_source();
    proof {
        let v = channel@.sources;
        lemma_archive_index(v);
        assert forall|j: int| 0 <= j < v.len() implies #[trigger] v[j] == channel.sources@[j]@ by {}
        match r {
            Some(s) => {
                let i = choose|i: int| #[trigger] best_archive(channel.sources@, i) && channel.sources@[i] == *s;
                assert(v[i].tv_archive);
                assert(archive_index(v) is Some);
                let k = archive_index(v)->0;
                assert(v[k].score <= v[i].score) by {
                    assert(channel.sources@[k].tv_archive);
                }
                assert(v[i].score <= v[k].score);
                if i < k {
                    assert(channel.sources@[k].score < channel.sources@[i].score);
                }
                if k < i {
                    assert(v[i].score < v[k].score);
                }
                assert(k == i);
            },
            None => {
                if archive_index(v) is Some {
                    let k = archive_index(v)->0;
                    assert(channel.sources@[k].tv_archive);
                }
            },
        }
    }
    r
}

// --- Logos ---------------------------------------------------------------------------------------------

/// Some source of the channel has the logo.
pub open spec fn bears(c: ChannelView, url: Seq<char>) -> bool {
    exists|j: int| 0 <= j < c.sources.len() && (#[trigger] c.sources[j]).logo == Some(url)
}

/// How many channels have the logo.
pub open spec fn sharing(cs: Seq<ChannelView>, url: Seq<char>) -> nat
    decreases cs.len(),
{
    if cs.len() == 0 {
        0
    } else {
        sharing(cs.drop_last(), url) + if bears(cs.last(), url) {
            1nat
        } else {
            0
        }
    }
}

/// Of the first `n` sources that have a logo, the one whose logo the fewest channels share; of
/// several the first.
pub open spec fn rarest(s: Seq<SourceView>, cs: Seq<ChannelView>, n: int) -> Option<int>
    decreases n,
{
    if n <= 0 {
        None
    } else {
        let before = rarest(s, cs, n - 1);
        match s[n - 1].logo {
            Some(url) => match before {
                Some(b) => if sharing(cs, url) < sharing(cs, s[b].logo->0) {
                    Some(n - 1)
                } else {
                    before
                },
                None => Some(n - 1),
            },
            None => before,
        }
    }
}

/// The logo of a channel: the one laid down for it, or the rarest one, if it is rare enough.
pub open spec fn logo_of(c: ChannelView, cs: Seq<ChannelView>, overrides: Map<Seq<char>, String>) -> Option<Seq<char>> {
    if overrides.contains_key(c.key) {
        Some(overrides[c.key]@)
    } else {
        match rarest(c.sources, cs, c.sources.len() as int) {
            Some(i) => if sharing(cs, c.sources[i].logo->0) <= PLACEHOLDER_THRESHOLD {
                c.sources[i].logo
            } else {
                None
            },
            None => None,
        }
    }
}

/// The contents of each channel.
pub open spec fn shown(v: Seq<&CanonicalChannel>) -> Seq<ChannelView> {
    v.map_values(|c: &CanonicalChannel| c@)
}

fn has_logo(c: &CanonicalChannel, url: &String) -> (r: bool)
    ensures
        r == bears(c@, url@),
{
    let mut j: usize = 0;
    while j < c.sources.len()
        invariant
            j <= c.sources@.len(),
            forall|k: int| 0 <= k < j ==> (#[trigger] c@.sources[k]).logo != Some(url@),
        decreases c.sources@.len() - j,
    {
        proof {
            assert(c@.sources[j as int] == c.sources@[j as int]@);
        }
        if let Some(l) = &c.sources[j].logo {
            if *l == *url {
                return true;
            }
        }
        j = j + 1;
    }
    false
}

fn count_sharing(cs: &Vec<&CanonicalChannel>, url: &String) -> (r: usize)
    ensures
        r == sharing(shown(cs@), url@),
{
    let ghost all = shown(cs@);
    let mut n: usize = 0;
    let mut i: usize = 0;
    while i < cs.len()
        invariant
            i <= cs@.len(),
            n <= i,
            all == shown(cs@),
            n == sharing(all.take(i as int), url@),
        decreases cs@.len() - i,
    {
        proof {
            assert(all[i as int] == cs@[i as int]@);
            assert(all.take(i + 1).drop_last() =~= all.take(i as int));
            assert(all.take(i + 1).last() == all[i as int]);
        }
        if has_logo(cs[i], url) {
            n = n + 1;
        }
        i = i + 1;
    }
    proof {
        assert(all.take(i as int) =~= all);
    }
    n
}

fn pick_logo(c: &CanonicalChannel, cs: &Vec<&CanonicalChannel>, curation: &Curation) -> (r: Option<String>)
    ensures
        opt_text(r) == logo_of(c@, shown(cs@), curation.logo_overrides@),
{
    if let Some(url) = curation.logo_overrides.get(&c.key) {
        return Some(url.clone());
    }
    let ghost s = c@.sources;
    let ghost all = shown(cs@);
    let mut best: Option<(usize, usize)> = None;
    let mut i: usize = 0;
    while i < c.sources.len()
        invariant
            i <= c.sources@.len(),
            s == source_views(c.sources@),
            all == shown(cs@),
            match best {
                Some(b) => b.0 < i && s[b.0 as int].logo is Some && b.1 == sharing(all, s[b.0 as int].logo->0) && rarest(
                    s,
                    all,
                    i as int,
                ) == Some(b.0 as int),
                None => rarest(s, all, i as int) is None,
            },
        decreases c.sources@.len() - i,
    {
        proof {
            assert(s[i as int] == c.sources@[i as int]@);
        }
        if let Some(url) = &c.sources[i].logo {
            let n = count_sharing(cs, url);
            match best {
                Some(b) => {
                    if n < b.1 {
                        best = Some((i, n));
                    }
                },
                None => {
                    best = Some((i, n));
                },
            }
        }
        i = i + 1;
    }
    match best {
        Some(b) => {
            proof {
                assert(s[b.0 as int] == c.sources@[b.0 as int]@);
            }
            if b.1 <= PLACEHOLDER_THRESHOLD {
                c.sources[b.0].logo.clone()
            } else {
                None
            }
        },
        None => None,
    }
}

// --- Which channels ------------------------------------------------------------------------------------

/// What a list of channels goes by.
pub struct Listing<'a> {
    pub world: &'a World<'a>,
    pub snap: &'a CatalogSnapshot,
    pub caps: &'a CapsSnapshot,
    /// What the client can play, where it says so.
    pub client: Option<&'a [String]>,
    pub tv_curation: &'a Curation,
    pub radio_curation: &'a Curation,
    /// The start of the URLs by which the client reaches the server.
    pub base: &'a str,
}

/// The first of the texts, from number `i` on, that is not in the set.
pub open spec fn first_missing(s: Seq<Seq<char>>, have: Set<Seq<char>>, i: int) -> Option<Seq<char>>
    decreases s.len() - i,
{
    if i < 0 || i >= s.len() {
        None
    } else if have.contains(s[i]) {
        first_missing(s, have, i + 1)
    } else {
        Some(s[i])
    }
}

/// One more for a text.
pub open spec fn one_more(m: Map<Seq<char>, usize>, t: Seq<char>) -> Map<Seq<char>, usize> {
    if m.contains_key(t) {
        m.insert(t, (m[t] + 1) as usize)
    } else {
        m.insert(t, 1)
    }
}

impl<'a> Listing<'a> {
    pub open spec fn wf(self) -> bool {
        self.world.wf()
    }

    /// What a channel asks for. Per variant, that is what its best candidate asks for, and
    /// nothing where it has none.
    pub open spec fn required(self, c: ChannelView) -> Seq<Seq<char>> {
        if self.world.per_variant {
            let cs = self.world.candidates(c, opt_texts(self.client));
            if cs.len() > 0 && self.world.scope().served(cs[0].stream_id) {
                sorted(Set::new(|t: Seq<char>| self.world.scope().asks(cs[0].stream_id, t)))
            } else {
                Seq::empty()
            }
        } else if caps_map(self.caps.per_channel).contains_key(c.key) {
            caps_map(self.caps.per_channel)[c.key]
        } else {
            seq!["hls"@, "h264"@, "aac"@, "live_video_hls"@]
        }
    }

    /// Why a channel is left out: no variant is left, or the first thing that the client cannot
    /// play.
    pub open spec fn hidden_by(self, c: ChannelView) -> Option<Seq<char>> {
        if self.world.per_variant && self.required(c).len() == 0 {
            Some("no-survivor"@)
        } else {
            match opt_texts(self.client) {
                Some(have) => first_missing(self.required(c), have, 0),
                None => None,
            }
        }
    }

    /// The channels that are not left out.
    pub open spec fn visible(self, cs: Seq<ChannelView>) -> Seq<ChannelView>
        decreases cs.len(),
    {
        if cs.len() == 0 {
            cs
        } else if self.hidden_by(cs.last()) is None {
            self.visible(cs.drop_last()).push(cs.last())
        } else {
            self.visible(cs.drop_last())
        }
    }

    /// How many channels are left out, by what they are left out for.
    pub open spec fn hidden(self, cs: Seq<ChannelView>) -> Map<Seq<char>, usize>
        decreases cs.len(),
    {
        if cs.len() == 0 {
            Map::empty()
        } else {
            match self.hidden_by(cs.last()) {
                Some(t) => one_more(self.hidden(cs.drop_last()), t),
                None => self.hidden(cs.drop_last()),
            }
        }
    }

    pub open spec fn curation(self, kind: ChannelKind) -> Curation {
        match kind {
            ChannelKind::Radio => *self.radio_curation,
            ChannelKind::Tv => *self.tv_curation,
        }
    }

    /// A channel as the client sees it, among the channels `cs`.
    pub open spec fn row(self, c: ChannelView, cs: Seq<ChannelView>) -> DtoView {
        let archive = archive_index(c.sources);
        let fmt = match first_format(c.sources) {
            Some(f) => f,
            None => RadioFormat::Hls,
        };
        let raw = c.kind == ChannelKind::Radio && fmt != RadioFormat::Hls;
        DtoView {
            key: c.key,
            name: c.name,
            kind: c.kind,
            caps_required: self.required(c),
            format: if c.kind == ChannelKind::Radio {
                Some(format_name(fmt))
            } else {
                None
            },
            logo: logo_of(c, cs, self.curation(c.kind).logo_overrides@),
            default_rank: self.curation(c.kind).place(c.key),
            source_count: c.sources.len(),
            play_url: trim_end_char(self.base@, '/') + "/play/"@ + c.key + if raw {
                ".audio"@
            } else {
                ".m3u8"@
            },
            tv_archive: archive is Some,
            tv_archive_duration: match archive {
                Some(i) => c.sources[i].tv_archive_duration,
                None => None,
            },
            tv_archive_quality: match archive {
                Some(i) => tier(marks(c.sources[i].name)),
                None => None,
            },
        }
    }

    /// All rows, in the order of the catalog.
    pub open spec fn rows(self) -> Seq<DtoView> {
        let cs = self.visible(channel_views(self.snap.channels@));
        cs.map_values(|c: ChannelView| self.row(c, cs))
    }

    fn caps_of(&self, c: &CanonicalChannel) -> (r: Vec<String>)
        requires
            self.wf(),
        ensures
            texts(r@) == self.required(c@),
    {
        if self.world.per_variant {
            let ghost cs = self.world.candidates(c@, opt_texts(self.client));
            return match channel_caps_v2(self.world, c, self.client) {
                Some(v) => {
                    proof {
                        let asks = Set::new(|t: Seq<char>| self.world.scope().asks(cs[0].stream_id, t));
                        lemma_sorted(texts(v@), asks);
                    }
                    v
                },
                None => {
                    let none: Vec<String> = Vec::new();
                    proof {
                        assert(texts(none@) =~= Seq::empty());
                    }
                    none
                },
            };
        }
        match self.caps.per_channel.get(&c.key) {
            Some(list) => {
                let mut out: Vec<String> = Vec::new();
                let mut i: usize = 0;
                while i < list.len()
                    invariant
                        i <= list@.len(),
                        texts(out@) =~= names(list@).take(i as int),
                    decreases list@.len() - i,
                {
                    let ghost was = texts(out@);
                    out.push(owned(list[i]));
                    proof {
                        assert(texts(out@) =~= was.push(list@[i as int]@));
                    }
                    i = i + 1;
                }
                proof {
                    assert(texts(out@) =~= names(list@));
                }
                out
            },
            None => {
                let out = vec![owned("hls"), owned("h264"), owned("aac"), owned("live_video_hls")];
                proof {
                    assert(texts(out@) =~= seq!["hls"@, "h264"@, "aac"@, "live_video_hls"@]);
                }
                out
            },
        }
    }

    fn why_hidden(&self, c: &CanonicalChannel) -> (r: Option<String>)
        requires
            self.wf(),
        ensures
            opt_text(r) == self.hidden_by(c@),
    {
        let required = self.caps_of(c);
        proof {
            assert(texts(required@).len() == required@.len());
        }
        if self.world.per_variant && required.len() == 0 {
            return Some(owned("no-survivor"));
        }
        let have = match self.client {
            Some(have) => have,
            None => {
                return None;
            },
        };
        let ghost s = texts(required@);
        let ghost set = texts(have@).to_set();
        let mut i: usize = 0;
        while i < required.len()
            invariant
                i <= required@.len(),
                s == texts(required@),
                s == self.required(c@),
                set == texts(have@).to_set(),
                opt_texts(self.client) == Some(set),
                !(self.world.per_variant && s.len() == 0),
                first_missing(s, set, 0) == first_missing(s, set, i as int),
            decreases required@.len() - i,
        {
            proof {
                assert(s[i as int] == required@[i as int]@);
                assert(set.contains(s[i as int]) == texts(have@).contains(s[i as int]));
            }
            if !has_text(have, &required[i]) {
                return Some(required[i].clone());
            }
            i = i + 1;
        }
        None
    }

    fn build_row(&self, c: &CanonicalChannel, cs: &Vec<&CanonicalChannel>) -> (r: ChannelDto)
        requires
            self.wf(),
        ensures
            r@ == self.row(c@, shown(cs@)),
    {
        let curation = match c.kind {
            ChannelKind::Radio => self.radio_curation,
            ChannelKind::Tv => self.tv_curation,
        };
        let archive = archive_source(c);
        let fmt = match radio_format_of(c) {
            Some(f) => f,
            None => RadioFormat::Hls,
        };
        let mut play_url = trim_end_matches(self.base, '/');
        push_text(&mut play_url, "/play/");
        push_text(&mut play_url, &c.key);
        let format = match c.kind {
            ChannelKind::Tv => {
                push_text(&mut play_url, ".m3u8");
                None
            },
            ChannelKind::Radio => {
                if fmt == RadioFormat::Hls {
                    push_text(&mut play_url, ".m3u8");
                } else {
                    push_text(&mut play_url, ".audio");
                }
                Some(radio_format_label(fmt))
            },
        };
        let (duration, quality) = match archive {
            Some(s) => (s.tv_archive_duration, quality_tier(&s.name)),
            None => (None, None),
        };
        ChannelDto {
            key: c.key.clone(),
            name: c.name.clone(),
            kind: c.kind,
            caps_required: self.caps_of(c),
            format,
            logo: pick_logo(c, cs, curation),
            default_rank: curation.rank_of(&c.key),
            source_count: c.sources.len(),
            play_url,
            tv_archive: archive.is_some(),
            tv_archive_duration: duration,
            tv_archive_quality: quality,
        }
    }

    fn sift(&self) -> (r: (Vec<&'a CanonicalChannel>, TextMap<usize>))
        requires
            self.wf(),
        ensures
            shown(r.0@) == self.visible(channel_views(self.snap.channels@)),
            r.1.wf(),
            r.1@ == self.hidden(channel_views(self.snap.channels@)),
    {
        let ghost all = channel_views(self.snap.channels@);
        let mut cs: Vec<&'a CanonicalChannel> = Vec::new();
        let mut hidden: TextMap<usize> = Table::new();
        let mut i: usize = 0;
        proof {
            assert(shown(cs@) =~= self.visible(all.take(0)));
            assert(hidden@ =~= self.hidden(all.take(0)));
        }
        while i < self.snap.channels.len()
            invariant
                self.wf(),
                i <= self.snap.channels@.len(),
                all == channel_views(self.snap.channels@),
                hidden.wf(),
                shown(cs@) == self.visible(all.take(i as int)),
                hidden@ == self.hidden(all.take(i as int)),
                forall|t: Seq<char>| #[trigger] hidden@.contains_key(t) ==> hidden@[t] <= i,
            decreases self.snap.channels@.len() - i,
        {
            let c = &self.snap.channels[i];
            let ghost was = shown(cs@);
            proof {
                assert(all[i as int] == c@);
                assert(all.take(i + 1).drop_last() =~= all.take(i as int));
                assert(all.take(i + 1).last() == c@);
            }
            match self.why_hidden(c) {
                Some(t) => {
                    let n: usize = match hidden.get(&t) {
                        Some(n) => *n + 1,
                        None => 1,
                    };
                    hidden.insert(t, n);
                },
                None => {
                    cs.push(c);
                    proof {
                        assert(shown(cs@) =~= was.push(c@));
                    }
                },
            }
            i = i + 1;
        }
        proof {
            assert(all.take(i as int) =~= all);
        }
        (cs, hidden)
    }
}

// --- In which order --------------------------------------------------------------------------------------

/// A row and what it is ordered by: its place, where it has one, and its name in lower case.
#[derive(Debug)]
pub struct RankedRow {
    pub lower: String,
    pub dto: ChannelDto,
}

/// Channels with a place come first, by their places; the others by their names in lower case.
pub open spec fn row_rank(place: Option<usize>, lower: Seq<char>) -> Seq<int> {
    (match place {
        Some(p) => seq![0int, p as int],
        None => seq![1int, usize::MAX as int],
    }) + codes(lower)
}

proof fn lemma_row_rank(a: Seq<int>, b: Seq<int>, x: Seq<int>, y: Seq<int>)
    requires
        a.len() == 2,
        b.len() == 2,
    ensures
        lex_lt(a + x, b + y) == (a[0] < b[0] || (a[0] == b[0] && (a[1] < b[1] || (a[1] == b[1] && lex_lt(x, y))))),
{
    let p = a + x;
    let q = b + y;
    reveal_with_fuel(lex_lt, 3);
    assert(p.skip(1).skip(1) =~= x);
    assert(q.skip(1).skip(1) =~= y);
    assert(p.skip(1)[0] == a[1]);
    assert(q.skip(1)[0] == b[1]);
}

impl Ranked for RankedRow {
    open spec fn rank(&self) -> Seq<int> {
        row_rank(self.dto.default_rank, self.lower@)
    }

    fn precedes(&self, other: &Self) -> (r: bool) {
        let a: (u8, usize) = match self.dto.default_rank {
            Some(p) => (0, p),
            None => (1, usize::MAX),
        };
        let b: (u8, usize) = match other.dto.default_rank {
            Some(p) => (0, p),
            None => (1, usize::MAX),
        };
        proof {
            lemma_row_rank(
                seq![a.0 as int, a.1 as int],
                seq![b.0 as int, b.1 as int],
                codes(self.lower@),
                codes(other.lower@),
            );
        }
        if a.0 != b.0 {
            a.0 < b.0
        } else if a.1 != b.1 {
            a.1 < b.1
        } else {
            text_before(&chars_of(&self.lower), &chars_of(&other.lower))
        }
    }
}

/// The rows in order; rows with equal places and names stay in their order.
pub fn order_rows(v: Vec<RankedRow>) -> (r: Vec<ChannelDto>)
    ensures
        r@ == ranked_by(v@, own_rank()).map_values(|k: RankedRow| k.dto),
{
    let s = sort_ranked(v);
    let ghost items = s@;
    let mut out: Vec<ChannelDto> = Vec::new();
    for k in it: s
        invariant
            it.seq() == items,
            out@.len() == it.index(),
            forall|j: int| 0 <= j < out@.len() ==> #[trigger] out@[j] == items[j].dto,
    {
        out.push(k.dto);
    }
    proof {
        assert(out@ =~= items.map_values(|k: RankedRow| k.dto));
    }
    out
}

/// What rows are ordered by.
pub open spec fn shown_rank() -> spec_fn(DtoView) -> Seq<int> {
    |d: DtoView| row_rank(d.default_rank, lowercase(d.name))
}

/// The channels that the client can play, in order, and how many are left out, by what they are
/// left out for.
pub fn list_channels(l: &Listing<'_>) -> (r: (Vec<ChannelDto>, TextMap<usize>))
    requires
        l.wf(),
    ensures
        dto_views(r.0@) == ranked_by(l.rows(), shown_rank()),
        r.1@ == l.hidden(channel_views(l.snap.channels@)),
{
    let (cs, hidden) = l.sift();
    let ghost all = shown(cs@);
    let mut rows: Vec<RankedRow> = Vec::new();
    let mut i: usize = 0;
    while i < cs.len()
        invariant
            l.wf(),
            i <= cs@.len(),
            all == shown(cs@),
            rows@.len() == i,
            forall|j: int|
                0 <= j < i ==> (#[trigger] rows@[j]).dto@ == l.row(all[j], all) && rows@[j].lower@ == lowercase(
                    rows@[j].dto@.name,
                ),
        decreases cs@.len() - i,
    {
        proof {
            assert(all[i as int] == cs@[i as int]@);
        }
        let dto = l.build_row(cs[i], &cs);
        let lower = to_lowercase(&dto.name);
        rows.push(RankedRow { lower, dto });
        i = i + 1;
    }
    let ghost items = rows@;
    let ghost view = |k: RankedRow| k.dto@;
    let out = order_rows(rows);
    proof {
        assert forall|j: int| 0 <= j < items.len() implies own_rank::<RankedRow>()(#[trigger] items[j]) == shown_rank()(
            view(items[j]),
        ) by {}
        lemma_ranked_by_map_on(items, view, own_rank(), shown_rank());
        assert(items.map_values(view) =~= l.rows());
        assert(dto_views(out@) =~= ranked_by(items, own_rank()).map_values(view));
    }
    (out, hidden)
}

// --- What is promised of it -------------------------------------------------------------------

proof fn lemma_first_missing(s: Seq<Seq<char>>, have: Set<Seq<char>>, i: int)
    requires
        0 <= i,
        first_missing(s, have, i) is None,
    ensures
        forall|k: int| i <= k < s.len() ==> have.contains(#[trigger] s[k]),
    decreases s.len() - i,
{
    if i < s.len() {
        lemma_first_missing(s, have, i + 1);
    }
}

proof fn lemma_visible(l: Listing, cs: Seq<ChannelView>, k: int)
    requires
        0 <= k < l.visible(cs).len(),
    ensures
        l.hidden_by(l.visible(cs)[k]) is None,
    decreases cs.len(),
{
    if cs.len() > 0 {
        let before = l.visible(cs.drop_last());
        if k < before.len() {
            lemma_visible(l, cs.drop_last(), k);
            assert(l.visible(cs)[k] == before[k]);
        }
    }
}

/// A client that says what it can play gets no channel that asks for anything else.
pub proof fn law_clients_can_play_what_they_get(l: Listing, k: int, cap: Seq<char>)
    requires
        l.client is Some,
        0 <= k < l.rows().len(),
        l.rows()[k].caps_required.contains(cap),
    ensures
        texts(l.client->0@).contains(cap),
{
    let cs = l.visible(channel_views(l.snap.channels@));
    lemma_visible(l, channel_views(l.snap.channels@), k);
    let s = l.required(cs[k]);
    let have = texts(l.client->0@).to_set();
    lemma_first_missing(s, have, 0);
    let i = choose|i: int| 0 <= i < s.len() && s[i] == cap;
    assert(have.contains(s[i]));
}

proof fn lemma_all_visible(l: Listing, cs: Seq<ChannelView>)
    requires
        l.client is None,
        !l.world.per_variant,
    ensures
        l.visible(cs) == cs,
    decreases cs.len(),
{
    if cs.len() > 0 {
        lemma_all_visible(l, cs.drop_last());
        assert(l.hidden_by(cs.last()) is None);
        assert(l.visible(cs) =~= cs);
    }
}

/// A client that does not say what it can play gets all channels.
pub proof fn law_silent_clients_get_all(l: Listing)
    requires
        l.client is None,
        !l.world.per_variant,
    ensures
        l.rows().len() == l.snap.channels@.len(),
{
    lemma_all_visible(l, channel_views(l.snap.channels@));
}

/// Channels with a place come in the order of their places, and before all others.
pub proof fn law_placed_channels_come_first(l: Listing, i: int, j: int)
    requires
        0 <= i < j < l.rows().len(),
    ensures
        ({
            let r = ranked_by(l.rows(), shown_rank());
            r[j].default_rank matches Some(b) ==> (r[i].default_rank matches Some(a) && a <= b)
        }),
{
    law_ranked(l.rows(), shown_rank());
    let r = ranked_by(l.rows(), shown_rank());
    assert(is_ranked(r, shown_rank()));
    assert(!lex_lt(shown_rank()(r[j]), shown_rank()(r[i])));
    let a = match r[i].default_rank {
        Some(p) => seq![0int, p as int],
        None => seq![1int, usize::MAX as int],
    };
    let b = match r[j].default_rank {
        Some(p) => seq![0int, p as int],
        None => seq![1int, usize::MAX as int],
    };
    lemma_row_rank(b, a, codes(lowercase(r[j].name)), codes(lowercase(r[i].name)));
}

/// A row tells of its channel: its names, its kind, how many sources it has, and under the base
/// the URL by which it is played, a playlist for television and for radio that comes as one.
pub proof fn law_rows_tell_of_their_channels(l: Listing, c: ChannelView, cs: Seq<ChannelView>)
    requires
        l.base@.len() > 0 ==> l.base@.last() != '/',
    ensures
        ({
            let r = l.row(c, cs);
            let start = l.base@ + "/play/"@ + c.key;
            &&& r.key == c.key
            &&& r.name == c.name
            &&& r.kind == c.kind
            &&& r.source_count == c.sources.len()
            &&& c.kind == ChannelKind::Tv ==> r.play_url == start + ".m3u8"@ && r.format is None
            &&& c.kind == ChannelKind::Radio && c.sources.len() > 0 && c.sources[0].radio_format == Some(RadioFormat::Hls)
                ==> r.play_url == start + ".m3u8"@ && r.format == Some("hls"@)
            &&& c.kind == ChannelKind::Radio && c.sources.len() > 0 && c.sources[0].radio_format == Some(RadioFormat::Mp3)
                ==> r.play_url == start + ".audio"@ && r.format == Some("mp3"@)
            &&& c.kind == ChannelKind::Radio && c.sources.len() > 0 && c.sources[0].radio_format == Some(RadioFormat::Aac)
                ==> r.play_url == start + ".audio"@ && r.format == Some("aac"@)
            &&& c.kind == ChannelKind::Tv ==> r.default_rank == l.tv_curation.place(c.key)
            &&& c.kind == ChannelKind::Radio ==> r.default_rank == l.radio_curation.place(c.key)
        }),
{
}

/// A channel has recordings where some source has; they are those of the source with an archive
/// that has the highest score.
pub proof fn law_rows_tell_of_recordings(l: Listing, c: ChannelView, cs: Seq<ChannelView>, i: int)
    requires
        0 <= i < c.sources.len(),
        c.sources[i].tv_archive,
        forall|j: int|
            0 <= j < c.sources.len() && j != i && (#[trigger] c.sources[j]).tv_archive ==> c.sources[j].score
                < c.sources[i].score,
    ensures
        l.row(c, cs).tv_archive,
        l.row(c, cs).tv_archive_duration == c.sources[i].tv_archive_duration,
        l.row(c, cs).tv_archive_quality == tier(marks(c.sources[i].name)),
{
    lemma_archive_index(c.sources);
}

/// A channel of which no source keeps recordings has none.
pub proof fn law_rows_without_recordings(l: Listing, c: ChannelView, cs: Seq<ChannelView>)
    requires
        forall|j: int| 0 <= j < c.sources.len() ==> !(#[trigger] c.sources[j]).tv_archive,
    ensures
        !l.row(c, cs).tv_archive,
        l.row(c, cs).tv_archive_duration is None,
        l.row(c, cs).tv_archive_quality is None,
{
    lemma_archive_index(c.sources);
}

proof fn lemma_rarest(s: Seq<SourceView>, cs: Seq<ChannelView>, n: int)
    requires
        n <= s.len(),
    ensures
        match rarest(s, cs, n) {
            Some(b) => {
                &&& 0 <= b < n
                &&& s[b].logo is Some
                &&& forall|j: int|
                    0 <= j < n && (#[trigger] s[j]).logo is Some ==> sharing(cs, s[b].logo->0) <= sharing(cs, s[j].logo->0)
            },
            None => forall|j: int| 0 <= j < n ==> (#[trigger] s[j]).logo is None,
        },
    decreases n,
{
    if n > 0 {
        lemma_rarest(s, cs, n - 1);
    }
}

/// A logo that is laid down for a channel is its logo. Else it is one of its sources', which at
/// most ten channels share, and no other source's is rarer; a channel with such a logo gets one.
pub proof fn law_common_logos_are_not_shown(
    c: ChannelView,
    cs: Seq<ChannelView>,
    overrides: Map<Seq<char>, String>,
    j: int,
)
    requires
        0 <= j < c.sources.len(),
        c.sources[j].logo is Some,
    ensures
        overrides.contains_key(c.key) ==> logo_of(c, cs, overrides) == Some(overrides[c.key]@),
        !overrides.contains_key(c.key) && sharing(cs, c.sources[j].logo->0) <= 10 ==> (match logo_of(c, cs, overrides) {
            Some(url) => bears(c, url) && sharing(cs, url) <= sharing(cs, c.sources[j].logo->0),
            None => false,
        }),
        !overrides.contains_key(c.key) ==> (match logo_of(c, cs, overrides) {
            Some(url) => bears(c, url) && sharing(cs, url) <= 10,
            None => sharing(cs, c.sources[j].logo->0) > 10,
        }),
{
    lemma_rarest(c.sources, cs, c.sources.len() as int);
}

/// A client that says what it can play is shown the channels of which it can play all that they
/// ask for; the others are hidden for the first thing that it cannot.
pub proof fn law_channels_are_hidden_for_what_is_missing(l: Listing, c: ChannelView)
    requires
        l.client is Some,
        !l.world.per_variant,
    ensures
        match l.hidden_by(c) {
            Some(t) => exists|i: int|
                0 <= i < l.required(c).len() && #[trigger] l.required(c)[i] == t && !texts(l.client->0@).contains(t)
                    && forall|j: int| 0 <= j < i ==> texts(l.client->0@).contains(#[trigger] l.required(c)[j]),
            None => forall|j: int|
                0 <= j < l.required(c).len() ==> texts(l.client->0@).contains(#[trigger] l.required(c)[j]),
        },
{
    let s = l.required(c);
    let have = texts(l.client->0@).to_set();
    assert forall|t: Seq<char>| have.contains(t) == texts(l.client->0@).contains(t) by {}
    lemma_missing_place(s, have, 0);
}

proof fn lemma_missing_place(s: Seq<Seq<char>>, have: Set<Seq<char>>, from: int)
    requires
        0 <= from <= s.len(),
    ensures
        match first_missing(s, have, from) {
            Some(t) => exists|i: int|
                from <= i < s.len() && #[trigger] s[i] == t && !have.contains(t) && forall|j: int|
                    from <= j < i ==> have.contains(#[trigger] s[j]),
            None => forall|j: int| from <= j < s.len() ==> have.contains(#[trigger] s[j]),
        },
    decreases s.len() - from,
{
    if from < s.len() && have.contains(s[from]) {
        lemma_missing_place(s, have, from + 1);
        if let Some(t) = first_missing(s, have, from) {
            let i = choose|i: int|
                from + 1 <= i < s.len() && #[trigger] s[i] == t && !have.contains(t) && forall|j: int|
                    from + 1 <= j < i ==> have.contains(#[trigger] s[j]);
            assert(s[i] == t);
        }
    } else if from < s.len() {
        assert(s[from] == s[from]);
    }
}

/// Every channel is shown or counted as hidden.
pub proof fn law_hidden_channels_are_counted(l: Listing, cs: Seq<ChannelView>, t: Seq<char>)
    requires
        cs.len() < usize::MAX,
    ensures
        (if l.hidden(cs).contains_key(t) {
            l.hidden(cs)[t] as int
        } else {
            0
        }) == cs.filter(|c: ChannelView| l.hidden_by(c) == Some(t)).len(),
        l.visible(cs) == cs.filter(|c: ChannelView| l.hidden_by(c) is None),
    decreases cs.len(),
{
    reveal(Seq::filter);
    if cs.len() > 0 {
        law_hidden_channels_are_counted(l, cs.drop_last(), t);
        lemma_filter_fits(cs.drop_last(), |c: ChannelView| l.hidden_by(c) == Some(t));
    }
}

proof fn lemma_filter_fits(cs: Seq<ChannelView>, f: spec_fn(ChannelView) -> bool)
    ensures
        cs.filter(f).len() <= cs.len(),
    decreases cs.len(),
{
    reveal(Seq::filter);
    if cs.len() > 0 {
        lemma_filter_fits(cs.drop_last(), f);
    }
}

} // verus!
