//! Cool-off: what failed lately steps back, until it has played cleanly for a while.
use vstd::prelude::*;
use vstd::slice::slice_subrange;
use crate::clock::{elapsed_secs, seconds_since};
use crate::config::BlacklistConfig;
use crate::table::{Table, TextMap, entered, kept, law_entries_round_trip, lemma_entered, lemma_kept_len};
use crate::table::{lemma_lookup, lemma_lookup_at, lookup};
use crate::text::{before, chars_of, copy_range, find, find_at, index_of, index_or_len, owned, split, split_chars};
use crate::text::{str_eq, string_of};

verus! {

/// The last step of the cool-off; step zero is none.
pub const MAX_COOL_OFF_STEP: u8 = 4;

/// The step from which on a URL counts as failed.
pub const FAILED_DIAG_STEP: u8 = 3;

/// A day.
pub const KNOWN_GOOD_SECS: u64 = 86400;

#[derive(Debug, Clone, Copy, PartialEq, Eq, Structural)]
pub enum FailureKind {
    /// The server failed: the host is to blame as well.
    ServerSide,
    /// The client failed while it played.
    ClientPostCanplay,
    /// The client failed before it played: this says nothing of the URL.
    ClientPreCanplay,
}

/// The cool-off of a URL. Times are in nanoseconds since the Unix epoch.
#[derive(Debug, Clone, Copy)]
pub struct UrlState {
    pub cool_off_step: u8,
    pub consecutive_fails: u8,
    pub last_error_at: Option<i128>,
    pub last_heartbeat_at: Option<i128>,
}

/// A URL that never failed.
pub open spec fn fresh() -> UrlState {
    UrlState { cool_off_step: 0, consecutive_fails: 0, last_error_at: None, last_heartbeat_at: None }
}

impl Default for UrlState {
    fn default() -> (r: Self)
        ensures
            r == fresh(),
    {
        UrlState { cool_off_step: 0, consecutive_fails: 0, last_error_at: None, last_heartbeat_at: None }
    }
}

/// A host on which streams failed lately.
#[derive(Debug)]
pub struct HostFailEntry {
    pub host: String,
    pub distinct_streams_failed: usize,
    pub last_fail_secs_ago: u64,
}

/// A URL's state after one more failure: one step on, up to the last.
pub open spec fn failed(s: UrlState, now: i128) -> UrlState {
    UrlState {
        cool_off_step: if s.cool_off_step < MAX_COOL_OFF_STEP {
            (s.cool_off_step + 1) as u8
        } else {
            MAX_COOL_OFF_STEP
        },
        consecutive_fails: if s.consecutive_fails < u8::MAX {
            (s.consecutive_fails + 1) as u8
        } else {
            u8::MAX
        },
        last_error_at: Some(now),
        last_heartbeat_at: s.last_heartbeat_at,
    }
}

/// The heartbeat before this one is fresh enough to vouch for what lies between.
pub open spec fn sustained(s: UrlState, config: BlacklistConfig, now: i128) -> bool {
    match s.last_heartbeat_at {
        Some(t) => elapsed_secs(now as int, t as int) <= config.heartbeat_window_secs,
        None => false,
    }
}

/// A URL's state after a heartbeat: the cool-off ends where the last error lies far enough
/// back and the heartbeat before was fresh.
pub open spec fn beaten(s: UrlState, config: BlacklistConfig, now: i128) -> UrlState {
    let clean = match s.last_error_at {
        Some(t) => elapsed_secs(now as int, t as int) >= config.clean_play_reset_secs && sustained(s, config, now),
        None => false,
    };
    if clean {
        UrlState { cool_off_step: 0, consecutive_fails: 0, last_error_at: None, last_heartbeat_at: Some(now) }
    } else {
        UrlState { last_heartbeat_at: Some(now), ..s }
    }
}

/// The state of a URL.
pub open spec fn state_of(urls: Map<Seq<char>, UrlState>, url: Seq<char>) -> UrlState {
    if urls.contains_key(url) {
        urls[url]
    } else {
        fresh()
    }
}

/// The scheme, its mark and what stands before the next slash.
pub open spec fn host_root(url: Seq<char>) -> Option<Seq<char>> {
    match find(url, "://"@) {
        Some(i) => Some(url.take(i + 3 + index_or_len(url.skip(i + 3), '/'))),
        None => None,
    }
}

/// What stands behind the first `pat`, up to the second.
pub open spec fn second_piece(s: Seq<char>, pat: Seq<char>) -> Option<Seq<char>> {
    match find(s, pat) {
        Some(i) => {
            let rest = s.skip(i + pat.len());
            match find(rest, pat) {
                Some(j) => Some(rest.take(j)),
                None => Some(rest),
            }
        },
        None => None,
    }
}

/// In a URL of the form `…/live/user/password/id.ending`: the id.
pub open spec fn live_id(url: Seq<char>) -> Option<Seq<char>> {
    match second_piece(url, "/live/"@) {
        Some(p) => {
            let parts = split(p, '/');
            if parts.len() < 3 {
                None
            } else {
                Some(before(parts[2], '.'))
            }
        },
        None => None,
    }
}

pub fn host_of(url: &str) -> (r: Option<String>)
    ensures
        match r {
            Some(h) => host_root(url@) == Some(h@),
            None => host_root(url@) is None,
        },
{
    let s = chars_of(url);
    proof {
        reveal_strlit("://");
        assert(s@.len() == s.len());
    }
    match find_at(&s, &chars_of("://"), 0) {
        Some(i) => {
            let j = index_of(&s, '/', i + 3);
            proof {
                assert(s@.subrange(0, j as int) =~= s@.take(j as int));
            }
            Some(string_of(slice_subrange(&s, 0, j)))
        },
        None => None,
    }
}

pub fn stream_id_of(url: &str) -> (r: Option<String>)
    ensures
        match r {
            Some(h) => live_id(url@) == Some(h@),
            None => live_id(url@) is None,
        },
{
    let s = chars_of(url);
    let pat = chars_of("/live/");
    proof {
        assert(s@.len() == s.len());
    }
    let i: usize = match find_at(&s, &pat, 0) {
        Some(i) => i,
        None => {
            return None;
        },
    };
    let rest = copy_range(&s, i + pat.len(), s.len());
    proof {
        assert(rest@ =~= s@.skip(i + pat@.len()));
    }
    let piece = match find_at(&rest, &pat, 0) {
        Some(j) => {
            proof {
                assert(rest@.subrange(0, j as int) =~= rest@.take(j as int));
            }
            copy_range(&rest, 0, j)
        },
        None => rest,
    };
    let parts = split_chars(&piece, '/');
    proof {
        assert(parts@.len() == split(piece@, '/').len());
    }
    if parts.len() < 3 {
        return None;
    }
    let last = &parts[2];
    let k = index_of(last, '.', 0);
    proof {
        assert(last@ == split(piece@, '/')[2]);
        assert(last@.skip(0) =~= last@);
        assert(last@.subrange(0, k as int) =~= last@.take(k as int));
    }
    Some(string_of(slice_subrange(last, 0, k)))
}

/// What failed, and what is known to be good.
pub struct Blacklist {
    pub per_url: TextMap<UrlState>,
    /// For each host the streams that failed on it, and when.
    pub host_streams: TextMap<TextMap<i128>>,
    /// For each channel a URL that worked, and when.
    pub last_known_good: TextMap<(String, i128)>,
    pub config: BlacklistConfig,
    /// Something changed since this was last written down.
    pub dirty: bool,
}

/// The contents of a `Blacklist`.
pub struct BlacklistView {
    pub urls: Map<Seq<char>, UrlState>,
    pub hosts: Map<Seq<char>, Map<Seq<char>, i128>>,
    pub good: Map<Seq<char>, (Seq<char>, i128)>,
}

impl View for Blacklist {
    type V = BlacklistView;

    open spec fn view(&self) -> BlacklistView {
        BlacklistView {
            urls: self.per_url@,
            hosts: self.host_streams@.map_values(|t: TextMap<i128>| t@),
            good: self.last_known_good@.map_values(|g: (String, i128)| g@),
        }
    }
}

/// The streams that failed on a host.
pub open spec fn streams_of(hosts: Map<Seq<char>, Map<Seq<char>, i128>>, host: Seq<char>) -> Map<Seq<char>, i128> {
    if hosts.contains_key(host) {
        hosts[host]
    } else {
        Map::empty()
    }
}

/// The hosts after a failure of a URL for which the server is to blame.
pub open spec fn blamed(hosts: Map<Seq<char>, Map<Seq<char>, i128>>, url: Seq<char>, now: i128) -> Map<
    Seq<char>,
    Map<Seq<char>, i128>,
> {
    match (host_root(url), live_id(url)) {
        (Some(h), Some(id)) => hosts.insert(h, streams_of(hosts, h).insert(id, now)),
        _ => hosts,
    }
}

/// The streams that failed less than `ttl` seconds ago.
pub open spec fn recent_streams(m: Map<Seq<char>, i128>, now: i128, ttl: u64) -> Set<Seq<char>> {
    m.dom().filter(|k: Seq<char>| elapsed_secs(now as int, m[k] as int) < ttl)
}

fn copy_entries(t: &TextMap<i128>) -> (r: Vec<(String, i128)>)
    ensures
        r@ == t.entries@,
{
    let mut entries: Vec<(String, i128)> = Vec::new();
    let mut i: usize = 0;
    while i < t.entries.len()
        invariant
            i <= t.entries@.len(),
            entries@ == t.entries@.take(i as int),
        decreases t.entries@.len() - i,
    {
        let (k, v) = &t.entries[i];
        entries.push((k.clone(), *v));
        proof {
            assert(entries@ =~= t.entries@.take(i + 1));
        }
        i = i + 1;
    }
    proof {
        assert(entries@ =~= t.entries@);
    }
    entries
}

/// How many streams failed lately, and how many seconds ago the last one did.
fn count_recent(t: &TextMap<i128>, now: i128, ttl: u64) -> (r: (usize, u64))
    requires
        t.wf(),
    ensures
        recent_streams(t@, now, ttl).len() == r.0,
        r.0 > 0 ==> exists|k: Seq<char>| #[trigger]
            recent_streams(t@, now, ttl).contains(k) && elapsed_secs(now as int, t@[k] as int) == r.1,
        forall|k: Seq<char>| #[trigger]
            recent_streams(t@, now, ttl).contains(k) ==> elapsed_secs(now as int, t@[k] as int) >= r.1,
{
    let ghost s = t.entries@;
    let ghost keep = |k: Seq<char>, at: i128| elapsed_secs(now as int, at as int) < ttl;
    let mut n: usize = 0;
    let mut least: u64 = u64::MAX;
    let mut i: usize = 0;
    while i < t.entries.len()
        invariant
            i <= s.len(),
            s == t.entries@,
            keep == |k: Seq<char>, at: i128| elapsed_secs(now as int, at as int) < ttl,
            n <= i,
            n == kept(s.take(i as int), keep).len(),
            n == 0 ==> least == u64::MAX,
            forall|j: int| 0 <= j < i && elapsed_secs(now as int, (#[trigger] s[j]).1 as int) < ttl ==> elapsed_secs(
                now as int,
                s[j].1 as int,
            ) >= least,
            n > 0 ==> exists|j: int|
                0 <= j < i && elapsed_secs(now as int, (#[trigger] s[j]).1 as int) == least && least < ttl,
        decreases s.len() - i,
    {
        proof {
            assert(s.take(i + 1).drop_last() =~= s.take(i as int));
            assert(s.take(i + 1).last() == s[i as int]);
        }
        let e = seconds_since(now, t.entries[i].1);
        if e < ttl {
            n = n + 1;
            if e < least {
                least = e;
                proof {
                    assert(elapsed_secs(now as int, s[i as int].1 as int) == least);
                }
            }
        }
        i = i + 1;
    }
    proof {
        assert(s.take(i as int) =~= s);
        let recent = recent_streams(t@, now, ttl);
        assert forall|k: Seq<char>| #[trigger] recent.contains(k) == (lookup(s, k) matches Some(v) && keep(k, v)) by {}
        lemma_kept_len(s, keep, recent);
        assert forall|k: Seq<char>| #[trigger] recent.contains(k) implies elapsed_secs(now as int, t@[k] as int) >= least by {
            lemma_lookup(s, k);
            let j = choose|j: int| 0 <= j < s.len() && (#[trigger] s[j]).0@ == k && s[j].1 == t@[k];
            assert(s[j].1 == t@[k]);
        }
        if n > 0 {
            let j = choose|j: int|
                0 <= j < i && elapsed_secs(now as int, (#[trigger] s[j]).1 as int) == least && least < ttl;
            lemma_lookup_at(s, j);
            assert(recent.contains(s[j].0@));
        }
    }
    (n, least)
}

impl Blacklist {
    pub open spec fn wf(&self) -> bool {
        &&& self.per_url.wf()
        &&& self.host_streams.wf()
        &&& forall|i: int| 0 <= i < self.host_streams.entries@.len() ==> (#[trigger] self.host_streams.entries@[i]).1.wf()
        &&& self.last_known_good.wf()
    }

    pub fn new(config: BlacklistConfig) -> (r: Self)
        ensures
            r.wf(),
            r@.urls == Map::<Seq<char>, UrlState>::empty(),
            r@.hosts == Map::<Seq<char>, Map<Seq<char>, i128>>::empty(),
            r@.good == Map::<Seq<char>, (Seq<char>, i128)>::empty(),
            r.config == config,
            !r.dirty,
    {
        let r = Blacklist {
            per_url: Table::new(),
            host_streams: Table::new(),
            last_known_good: Table::new(),
            config,
            dirty: false,
        };
        proof {
            assert forall|i: int| 0 <= i < r.host_streams.entries@.len() implies (#[trigger] r.host_streams.entries@[i]).1.wf() by {
                lemma_lookup_at(r.host_streams.entries@, 0);
                assert(r.host_streams@.contains_key(r.host_streams.entries@[0].0@));
            }
            assert(r@.hosts =~= Map::<Seq<char>, Map<Seq<char>, i128>>::empty());
            assert(r@.good =~= Map::<Seq<char>, (Seq<char>, i128)>::empty());
        }
        r
    }

    fn url_state(&self, url: &str) -> (r: UrlState)
        ensures
            r == state_of(self@.urls, url@),
    {
        match self.per_url.get(&owned(url)) {
            Some(s) => *s,
            None => UrlState::default(),
        }
    }

    fn put_host(&mut self, host: String, streams: TextMap<i128>)
        requires
            old(self).wf(),
            streams.wf(),
        ensures
            final(self).wf(),
            final(self)@.urls == old(self)@.urls,
            final(self)@.good == old(self)@.good,
            final(self)@.hosts == old(self)@.hosts.insert(host@, streams@),
            final(self).config == old(self).config,
            final(self).dirty == old(self).dirty,
    {
        let ghost h = host@;
        self.host_streams.insert(host, streams);
        proof {
            let t = self.host_streams;
            assert forall|j: int| 0 <= j < t.entries@.len() implies (#[trigger] t.entries@[j]).1.wf() by {
                lemma_lookup_at(t.entries@, j);
                let k = t.entries@[j].0@;
                assert(t@.contains_key(k) && t@[k] == t.entries@[j].1);
                if k != h {
                    assert(old(self).host_streams@.contains_key(k));
                    assert(old(self).host_streams@[k] == t.entries@[j].1);
                    lemma_lookup(old(self).host_streams.entries@, k);
                    let q = choose|q: int|
                        0 <= q < old(self).host_streams.entries@.len() && (#[trigger] old(self).host_streams.entries@[q]).0@
                            == k && old(self).host_streams.entries@[q].1 == t.entries@[j].1;
                    assert(old(self).host_streams.entries@[q].1.wf());
                }
            }
            assert(self@.hosts =~= old(self)@.hosts.insert(h, streams@));
        }
    }

    fn blame(&mut self, host: String, stream: String, now: i128)
        requires
            old(self).wf(),
        ensures
            final(self).wf(),
            final(self)@.urls == old(self)@.urls,
            final(self)@.good == old(self)@.good,
            final(self)@.hosts == old(self)@.hosts.insert(host@, streams_of(old(self)@.hosts, host@).insert(stream@, now)),
            final(self).config == old(self).config,
            final(self).dirty == old(self).dirty,
    {
        let i = self.host_streams.position(&host);
        let mut streams: TextMap<i128> = if i < self.host_streams.entries.len() {
            Table { entries: copy_entries(&self.host_streams.entries[i].1) }
        } else {
            Table::new()
        };
        streams.insert(stream, now);
        self.put_host(host, streams);
    }

    /// Takes note of a failure.
    pub fn note_failure(&mut self, url: &str, kind: FailureKind, now: i128)
        requires
            old(self).wf(),
        ensures
            final(self).wf(),
            final(self).config == old(self).config,
            final(self)@.good == old(self)@.good,
            kind == FailureKind::ClientPreCanplay ==> *final(self) == *old(self),
            kind != FailureKind::ClientPreCanplay ==> final(self).dirty && final(self)@.urls == old(self)@.urls.insert(
                url@,
                failed(state_of(old(self)@.urls, url@), now),
            ) && final(self)@.hosts == if kind == FailureKind::ServerSide {
                blamed(old(self)@.hosts, url@, now)
            } else {
                old(self)@.hosts
            },
    {
        if kind == FailureKind::ClientPreCanplay {
            return;
        }
        let s = self.url_state(url);
        let next = UrlState {
            cool_off_step: if s.cool_off_step < MAX_COOL_OFF_STEP {
                s.cool_off_step + 1
            } else {
                MAX_COOL_OFF_STEP
            },
            consecutive_fails: if s.consecutive_fails < u8::MAX {
                s.consecutive_fails + 1
            } else {
                u8::MAX
            },
            last_error_at: Some(now),
            last_heartbeat_at: s.last_heartbeat_at,
        };
        self.per_url.insert(owned(url), next);
        if kind == FailureKind::ServerSide {
            match (host_of(url), stream_id_of(url)) {
                (Some(host), Some(stream)) => {
                    self.blame(host, stream, now);
                },
                _ => {},
            }
        }
        self.dirty = true;
    }

    /// Takes note of clean playback. A URL that never failed is left alone.
    pub fn note_heartbeat(&mut self, url: &str, now: i128)
        requires
            old(self).wf(),
        ensures
            final(self).wf(),
            final(self).config == old(self).config,
            final(self)@.good == old(self)@.good,
            final(self)@.hosts == old(self)@.hosts,
            !old(self)@.urls.contains_key(url@) ==> *final(self) == *old(self),
            old(self)@.urls.contains_key(url@) ==> final(self).dirty && final(self)@.urls == old(self)@.urls.insert(
                url@,
                beaten(old(self)@.urls[url@], old(self).config, now),
            ),
    {
        let s: UrlState = match self.per_url.get(&owned(url)) {
            Some(s) => *s,
            None => {
                return;
            },
        };
        let prev_fresh = match s.last_heartbeat_at {
            Some(t) => seconds_since(now, t) <= self.config.heartbeat_window_secs,
            None => false,
        };
        let clean = match s.last_error_at {
            Some(t) => seconds_since(now, t) >= self.config.clean_play_reset_secs && prev_fresh,
            None => false,
        };
        let next = if clean {
            UrlState { cool_off_step: 0, consecutive_fails: 0, last_error_at: None, last_heartbeat_at: Some(now) }
        } else {
            UrlState {
                cool_off_step: s.cool_off_step,
                consecutive_fails: s.consecutive_fails,
                last_error_at: s.last_error_at,
                last_heartbeat_at: Some(now),
            }
        };
        self.per_url.insert(owned(url), next);
        self.dirty = true;
    }

    /// The step of a URL's cool-off; zero where it never failed.
    pub fn cool_off_penalty(&self, url: &str) -> (r: i32)
        ensures
            r == state_of(self@.urls, url@).cool_off_step,
    {
        self.url_state(url).cool_off_step as i32
    }

    pub fn note_url_succeeded(&mut self, channel_key: &str, url: &str, now: i128)
        requires
            old(self).wf(),
        ensures
            final(self).wf(),
            final(self).config == old(self).config,
            final(self).dirty,
            final(self)@.urls == old(self)@.urls,
            final(self)@.hosts == old(self)@.hosts,
            final(self)@.good == old(self)@.good.insert(channel_key@, (url@, now)),
    {
        self.last_known_good.insert(owned(channel_key), (owned(url), now));
        self.dirty = true;
        proof {
            assert(self@.good =~= old(self)@.good.insert(channel_key@, (url@, now)));
        }
    }

    /// The URL that last worked for a channel, for a day.
    pub fn last_known_good(&self, channel_key: &str, now: i128) -> (r: Option<String>)
        ensures
            match r {
                Some(u) => self@.good.contains_key(channel_key@) && self@.good[channel_key@].0 == u@ && elapsed_secs(
                    now as int,
                    self@.good[channel_key@].1 as int,
                ) <= KNOWN_GOOD_SECS,
                None => !self@.good.contains_key(channel_key@) || elapsed_secs(
                    now as int,
                    self@.good[channel_key@].1 as int,
                ) > KNOWN_GOOD_SECS,
            },
    {
        match self.last_known_good.get(&owned(channel_key)) {
            Some(g) => if seconds_since(now, g.1) > KNOWN_GOOD_SECS {
                None
            } else {
                Some(g.0.clone())
            },
            None => None,
        }
    }

    /// How many seconds ago `url` worked for a channel, if it is the one that last did, for
    /// a day.
    pub fn last_known_good_age(&self, channel_key: &str, url: &str, now: i128) -> (r: Option<u64>)
        ensures
            r == good_age(self@.good, channel_key@, url@, now),
    {
        match self.last_known_good.get(&owned(channel_key)) {
            Some(g) => {
                if !str_eq(&g.0, url) {
                    return None;
                }
                let e = seconds_since(now, g.1);
                if e > KNOWN_GOOD_SECS {
                    None
                } else {
                    Some(e)
                }
            },
            None => None,
        }
    }

    pub fn is_url_failed(&self, url: &str) -> (r: bool)
        ensures
            r == (state_of(self@.urls, url@).cool_off_step >= FAILED_DIAG_STEP),
    {
        self.url_state(url).cool_off_step >= FAILED_DIAG_STEP
    }

    /// Whether enough streams failed lately on a host.
    pub fn is_host_bad(&self, host: &str, now: i128) -> (r: bool)
        requires
            self.wf(),
        ensures
            r == host_bad(self@.hosts, self.config, host@, now),
    {
        let i = self.host_streams.position(&owned(host));
        if i >= self.host_streams.entries.len() {
            return false;
        }
        let (n, _) = count_recent(&self.host_streams.entries[i].1, now, self.config.host_ttl_secs);
        n >= self.config.host_fail_threshold
    }

    /// How many URLs have a state.
    pub fn per_url_count(&self) -> (r: usize)
        requires
            self.wf(),
        ensures
            self@.urls.dom().len() == r,
    {
        proof {
            let s = self.per_url.entries@;
            let keep = |k: Seq<char>, u: UrlState| true;
            lemma_all_kept(s, keep);
            lemma_kept_len(s, keep, self@.urls.dom());
        }
        self.per_url.entries.len()
    }

    /// The hosts on which some stream failed lately, each once, in no particular order.
    pub fn snapshot_hosts(&self, now: i128) -> (r: Vec<HostFailEntry>)
        requires
            self.wf(),
        ensures
            forall|i: int| 0 <= i < r@.len() ==> tells_of_host(self@.hosts, self.config.host_ttl_secs, now, #[trigger] r@[i]),
            forall|i: int, j: int| #![trigger r@[i], r@[j]] 0 <= i < j < r@.len() ==> r@[i].host@ != r@[j].host@,
            forall|h: Seq<char>|
                self@.hosts.contains_key(h) && recent_streams(self@.hosts[h], now, self.config.host_ttl_secs).len() > 0
                    ==> exists|i: int| 0 <= i < r@.len() && (#[trigger] r@[i]).host@ == h,
    {
        let mut out: Vec<HostFailEntry> = Vec::new();
        let ghost s = self.host_streams.entries@;
        let ttl = self.config.host_ttl_secs;
        let mut i: usize = 0;
        while i < self.host_streams.entries.len()
            invariant
                i <= s.len(),
                s == self.host_streams.entries@,
                self.wf(),
                ttl == self.config.host_ttl_secs,
                forall|j: int| 0 <= j < out@.len() ==> tells_of_host(self@.hosts, ttl, now, #[trigger] out@[j]),
                forall|j: int|
                    0 <= j < out@.len() ==> exists|q: int| 0 <= q < i && (#[trigger] s[q]).0@ == (#[trigger] out@[j]).host@,
                forall|p: int, q: int| #![trigger out@[p], out@[q]] 0 <= p < q < out@.len() ==> out@[p].host@ != out@[q].host@,
                forall|q: int|
                    0 <= q < i && recent_streams((#[trigger] s[q]).1@, now, ttl).len() > 0 ==> exists|j: int|
                        0 <= j < out@.len() && (#[trigger] out@[j]).host@ == s[q].0@,
            decreases s.len() - i,
        {
            let (host, streams) = &self.host_streams.entries[i];
            let (n, ago) = count_recent(streams, now, ttl);
            proof {
                lemma_lookup_at(s, i as int);
                assert(self@.hosts.contains_key(host@) && self@.hosts[host@] == streams@);
            }
            if n > 0 {
                let ghost was = out@;
                proof {
                    assert forall|p: int| 0 <= p < was.len() implies (#[trigger] was[p]).host@ != host@ by {
                        let q = choose|q: int| 0 <= q < i && (#[trigger] s[q]).0@ == was[p].host@;
                        assert(s[q].0@ != s[i as int].0@);
                    }
                }
                out.push(HostFailEntry { host: host.clone(), distinct_streams_failed: n, last_fail_secs_ago: ago });
                proof {
                    assert(out@[was.len() as int].host@ == s[i as int].0@);
                    assert forall|q: int|
                        0 <= q < i && recent_streams((#[trigger] s[q]).1@, now, ttl).len() > 0 implies exists|j: int|
                        0 <= j < out@.len() && (#[trigger] out@[j]).host@ == s[q].0@ by {
                        let j = choose|j: int| 0 <= j < was.len() && (#[trigger] was[j]).host@ == s[q].0@;
                        assert(out@[j] == was[j]);
                    }
                }
            }
            i = i + 1;
        }
        proof {
            assert forall|h: Seq<char>|
                self@.hosts.contains_key(h) && recent_streams(self@.hosts[h], now, ttl).len() > 0 implies exists|i: int|
                0 <= i < out@.len() && (#[trigger] out@[i]).host@ == h by {
                lemma_lookup(s, h);
                let q = choose|q: int| 0 <= q < s.len() && (#[trigger] s[q]).0@ == h && s[q].1@ == self@.hosts[h];
                assert(recent_streams(s[q].1@, now, ttl).len() > 0);
            }
        }
        out
    }
}

proof fn lemma_all_kept(s: Seq<(String, UrlState)>, keep: spec_fn(Seq<char>, UrlState) -> bool)
    requires
        keep == |k: Seq<char>, u: UrlState| true,
    ensures
        kept(s, keep) == s,
    decreases s.len(),
{
    if s.len() > 0 {
        lemma_all_kept(s.drop_last(), keep);
        assert(kept(s, keep) =~= s);
    }
}

/// What an entry says of a host: how many streams failed lately, and when the last did.
pub open spec fn tells_of_host(
    hosts: Map<Seq<char>, Map<Seq<char>, i128>>,
    ttl: u64,
    now: i128,
    e: HostFailEntry,
) -> bool {
    let m = hosts[e.host@];
    let recent = recent_streams(m, now, ttl);
    &&& hosts.contains_key(e.host@)
    &&& e.distinct_streams_failed > 0
    &&& recent.len() == e.distinct_streams_failed
    &&& exists|k: Seq<char>| #[trigger] recent.contains(k) && elapsed_secs(now as int, m[k] as int) == e.last_fail_secs_ago
    &&& forall|k: Seq<char>| #[trigger] recent.contains(k) ==> elapsed_secs(now as int, m[k] as int) >= e.last_fail_secs_ago
}

/// Enough streams failed lately on the host.
pub open spec fn host_bad(
    hosts: Map<Seq<char>, Map<Seq<char>, i128>>,
    config: BlacklistConfig,
    host: Seq<char>,
    now: i128,
) -> bool {
    hosts.contains_key(host) && recent_streams(hosts[host], now, config.host_ttl_secs).len() >= config.host_fail_threshold
}

/// How many seconds ago the URL worked for the channel, if it is the one that last did, for
/// a day.
pub open spec fn good_age(good: Map<Seq<char>, (Seq<char>, i128)>, channel: Seq<char>, url: Seq<char>, now: i128) -> Option<
    u64,
> {
    if good.contains_key(channel) && good[channel].0 == url && elapsed_secs(now as int, good[channel].1 as int)
        <= KNOWN_GOOD_SECS {
        Some(elapsed_secs(now as int, good[channel].1 as int) as u64)
    } else {
        None
    }
}

// --- Writing it down -----------------------------------------------------------------------

/// A blacklist as flat lists.
#[derive(Debug)]
pub struct BlacklistLists {
    pub per_url: Vec<(String, UrlState)>,
    pub host_streams: Vec<(String, Vec<(String, i128)>)>,
    pub last_known_good: Vec<(String, (String, i128))>,
}

/// The hosts that a list holds.
pub open spec fn listed_hosts(s: Seq<(String, Vec<(String, i128)>)>) -> Map<Seq<char>, Map<Seq<char>, i128>>
    decreases s.len(),
{
    if s.len() == 0 {
        Map::empty()
    } else {
        listed_hosts(s.drop_last()).insert(s.last().0@, entered(s.last().1@))
    }
}

/// What flat lists hold; of two entries for one key the later.
pub open spec fn listed(l: BlacklistLists) -> BlacklistView {
    BlacklistView {
        urls: entered(l.per_url@),
        hosts: listed_hosts(l.host_streams@),
        good: entered(l.last_known_good@).map_values(|g: (String, i128)| g@),
    }
}

/// The lists are those of the blacklist's own entries.
pub open spec fn lists_entries(l: BlacklistLists, b: Blacklist) -> bool {
    &&& l.per_url@ == b.per_url.entries@
    &&& l.last_known_good@ == b.last_known_good.entries@
    &&& l.host_streams@.len() == b.host_streams.entries@.len()
    &&& forall|i: int|
        0 <= i < l.host_streams@.len() ==> (#[trigger] l.host_streams@[i]).0 == b.host_streams.entries@[i].0
            && l.host_streams@[i].1@ == b.host_streams.entries@[i].1.entries@
}

impl Blacklist {
    pub fn to_lists(&self) -> (r: BlacklistLists)
        requires
            self.wf(),
        ensures
            lists_entries(r, *self),
    {
        let mut per_url: Vec<(String, UrlState)> = Vec::new();
        let mut i: usize = 0;
        while i < self.per_url.entries.len()
            invariant
                i <= self.per_url.entries@.len(),
                per_url@ == self.per_url.entries@.take(i as int),
            decreases self.per_url.entries@.len() - i,
        {
            let (u, s) = &self.per_url.entries[i];
            per_url.push((u.clone(), *s));
            proof {
                assert(per_url@ =~= self.per_url.entries@.take(i + 1));
            }
            i = i + 1;
        }
        let mut last_known_good: Vec<(String, (String, i128))> = Vec::new();
        let mut j: usize = 0;
        while j < self.last_known_good.entries.len()
            invariant
                j <= self.last_known_good.entries@.len(),
                last_known_good@ == self.last_known_good.entries@.take(j as int),
            decreases self.last_known_good.entries@.len() - j,
        {
            let (c, g) = &self.last_known_good.entries[j];
            last_known_good.push((c.clone(), (g.0.clone(), g.1)));
            proof {
                assert(last_known_good@ =~= self.last_known_good.entries@.take(j + 1));
            }
            j = j + 1;
        }
        let mut host_streams: Vec<(String, Vec<(String, i128)>)> = Vec::new();
        let mut k: usize = 0;
        while k < self.host_streams.entries.len()
            invariant
                k <= self.host_streams.entries@.len(),
                host_streams@.len() == k,
                self.wf(),
                forall|i: int|
                    0 <= i < k ==> (#[trigger] host_streams@[i]).0 == self.host_streams.entries@[i].0 && host_streams@[i].1@
                        == self.host_streams.entries@[i].1.entries@,
            decreases self.host_streams.entries@.len() - k,
        {
            let (h, t) = &self.host_streams.entries[k];
            host_streams.push((h.clone(), copy_entries(t)));
            k = k + 1;
        }
        proof {
            assert(per_url@ =~= self.per_url.entries@);
            assert(last_known_good@ =~= self.last_known_good.entries@);
        }
        BlacklistLists { per_url, host_streams, last_known_good }
    }

    pub fn from_lists(config: BlacklistConfig, l: BlacklistLists) -> (r: Self)
        ensures
            r.wf(),
            r@ == listed(l),
            r.config == config,
            !r.dirty,
    {
        let mut r = Blacklist::new(config);
        let ghost hs = l.host_streams@;
        for e in it: l.host_streams
            invariant
                it.seq() == hs,
                r.wf(),
                r.config == config,
                !r.dirty,
                r@.hosts == listed_hosts(hs.take(it.index())),
        {
            proof {
                let k = it.index();
                assert(hs.take(k + 1).drop_last() =~= hs.take(k));
            }
            let (host, streams) = e;
            r.put_host(host, Table::from_entries(streams));
        }
        proof {
            assert(hs.take(hs.len() as int) =~= hs);
        }
        r.per_url = Table::from_entries(l.per_url);
        r.last_known_good = Table::from_entries(l.last_known_good);
        r
    }
}

/// A blacklist written down and read back is what it was.
pub proof fn law_blacklist_round_trip(b: Blacklist, l: BlacklistLists)
    requires
        b.wf(),
        lists_entries(l, b),
    ensures
        listed(l) == b@,
{
    lemma_entered(b.per_url.entries@);
    lemma_entered(b.last_known_good.entries@);
    assert(listed(l).urls =~= b@.urls);
    assert(listed(l).good =~= b@.good);
    let s = b.host_streams.entries@;
    assert(s.take(s.len() as int) =~= s);
    assert(l.host_streams@.take(s.len() as int) =~= l.host_streams@);
    lemma_listed_hosts(s, l.host_streams@, s.len() as int);
    lemma_entered(s);
    assert(listed(l).hosts =~= b@.hosts);
}

proof fn lemma_listed_hosts(s: Seq<(String, TextMap<i128>)>, l: Seq<(String, Vec<(String, i128)>)>, n: int)
    requires
        0 <= n <= s.len(),
        l.len() == s.len(),
        forall|i: int| 0 <= i < s.len() ==> (#[trigger] s[i]).1.wf(),
        forall|i: int| 0 <= i < s.len() ==> (#[trigger] l[i]).0 == s[i].0 && l[i].1@ == s[i].1.entries@,
    ensures
        listed_hosts(l.take(n)) == entered(s.take(n)).map_values(|t: TextMap<i128>| t@),
    decreases n,
{
    let f = |t: TextMap<i128>| t@;
    if n > 0 {
        lemma_listed_hosts(s, l, n - 1);
        assert(l.take(n).drop_last() =~= l.take(n - 1));
        assert(s.take(n).drop_last() =~= s.take(n - 1));
        assert(l[n - 1].0 == s[n - 1].0);
        law_entries_round_trip(s[n - 1].1);
        assert(l.take(n).last() == l[n - 1]);
        assert(s.take(n).last() == s[n - 1]);
    }
    assert(listed_hosts(l.take(n)) =~= entered(s.take(n)).map_values(f));
}

// --- What is promised of it ----------------------------------------------------------------

/// Each failure leads one step further, and never beyond the last step.
pub proof fn law_failures_escalate(s: UrlState, now: i128)
    ensures
        1 <= failed(s, now).cool_off_step <= MAX_COOL_OFF_STEP,
        s.cool_off_step <= MAX_COOL_OFF_STEP ==> failed(s, now).cool_off_step >= s.cool_off_step,
        s.cool_off_step < MAX_COOL_OFF_STEP ==> failed(s, now).cool_off_step == s.cool_off_step + 1,
{
}

/// A heartbeat ends the cool-off or leaves it where it was; it ends it only where another
/// heartbeat came shortly before.
pub proof fn law_one_heartbeat_is_not_enough(s: UrlState, config: BlacklistConfig, now: i128)
    ensures
        beaten(s, config, now).cool_off_step == 0 || beaten(s, config, now).cool_off_step == s.cool_off_step,
        s.last_heartbeat_at is None ==> beaten(s, config, now).cool_off_step == s.cool_off_step,
{
}

/// Heartbeats in close succession end the cool-off once the last error lies far enough back.
pub proof fn law_clean_play_ends_cool_off(s: UrlState, config: BlacklistConfig, first: i128, second: i128)
    requires
        s.last_error_at matches Some(e) && elapsed_secs(second as int, e as int) >= config.clean_play_reset_secs,
        elapsed_secs(second as int, first as int) <= config.heartbeat_window_secs,
    ensures
        beaten(beaten(s, config, first), config, second).last_error_at is None,
        s.cool_off_step == 0 || beaten(beaten(s, config, first), config, second).cool_off_step == 0,
{
}

/// A failure is remembered with its time and counted, and the cool-off goes on by one step of
/// four; the heartbeats stay.
pub proof fn law_failures_are_remembered(s: UrlState, now: i128)
    requires
        s.cool_off_step <= 4,
    ensures
        failed(s, now).last_error_at == Some(now),
        failed(s, now).last_heartbeat_at == s.last_heartbeat_at,
        s.cool_off_step < 4 ==> failed(s, now).cool_off_step == s.cool_off_step + 1,
        s.cool_off_step == 4 ==> failed(s, now).cool_off_step == 4,
        s.consecutive_fails < 255 ==> failed(s, now).consecutive_fails == s.consecutive_fails + 1,
{
}

/// The cool-off ends with a heartbeat where the error lies back as long as is asked for, and the
/// heartbeat before it no longer than is allowed; else it stays as it was. Times are in nanoseconds.
pub proof fn law_cool_off_ends_in_time(s: UrlState, config: BlacklistConfig, error: i128, beat: i128, now: i128)
    requires
        s.last_error_at == Some(error),
        s.last_heartbeat_at == Some(beat),
        error <= now,
        beat <= now,
        now - error <= u64::MAX * 1000000000,
        now - beat <= u64::MAX * 1000000000,
    ensures
        ({
            let long_ago = now - error >= config.clean_play_reset_secs * 1000000000;
            let lately = now - beat < (config.heartbeat_window_secs + 1) * 1000000000;
            &&& long_ago && lately ==> beaten(s, config, now) == (UrlState { last_heartbeat_at: Some(now), ..fresh() })
            &&& !(long_ago && lately) ==> beaten(s, config, now) == (UrlState { last_heartbeat_at: Some(now), ..s })
        }),
{
}

/// A host is bad as long as enough of its streams failed within the time that failures count.
pub proof fn law_hosts_are_bad_by_their_streams(
    hosts: Map<Seq<char>, Map<Seq<char>, i128>>,
    config: BlacklistConfig,
    host: Seq<char>,
    now: i128,
)
    requires
        hosts.contains_key(host),
        hosts[host].dom().finite(),
        forall|k: Seq<char>| hosts[host].contains_key(k) ==> #[trigger] hosts[host][k] <= now && now - hosts[host][k] <= u64::MAX
            * 1000000000,
    ensures
        host_bad(hosts, config, host, now) <==> hosts[host].dom().filter(
            |k: Seq<char>| now - hosts[host][k] < config.host_ttl_secs * 1000000000,
        ).len() >= config.host_fail_threshold,
{
    let m = hosts[host];
    let late = m.dom().filter(|k: Seq<char>| now - m[k] < config.host_ttl_secs * 1000000000);
    assert forall|k: Seq<char>| #[trigger] late.contains(k) <==> recent_streams(m, now, config.host_ttl_secs).contains(k) by {
        if m.contains_key(k) {
            assert(m[k] <= now);
        }
    }
    assert(late =~= recent_streams(m, now, config.host_ttl_secs));
}

/// A host without failures is not bad, nor is one whose failures are all too old.
pub proof fn law_old_failures_are_forgiven(
    hosts: Map<Seq<char>, Map<Seq<char>, i128>>,
    config: BlacklistConfig,
    host: Seq<char>,
    now: i128,
)
    requires
        config.host_fail_threshold > 0,
    ensures
        !hosts.contains_key(host) ==> !host_bad(hosts, config, host, now),
        hosts.contains_key(host) && (forall|k: Seq<char>|
            hosts[host].contains_key(k) ==> now - #[trigger] hosts[host][k] >= (config.host_ttl_secs + 1) * 1000000000)
            ==> !host_bad(hosts, config, host, now),
{
    if hosts.contains_key(host) && (forall|k: Seq<char>|
        hosts[host].contains_key(k) ==> now - #[trigger] hosts[host][k] >= (config.host_ttl_secs + 1) * 1000000000) {
        let r = recent_streams(hosts[host], now, config.host_ttl_secs);
        assert forall|k: Seq<char>| !r.contains(k) by {
            if hosts[host].contains_key(k) {
                assert(now - hosts[host][k] >= (config.host_ttl_secs + 1) * 1000000000);
            }
        }
        assert(r =~= Set::empty());
    }
}

/// Only the URL that worked last for a channel counts as good for it, and only for a day.
pub proof fn law_known_good_lasts_a_day(
    good: Map<Seq<char>, (Seq<char>, i128)>,
    channel: Seq<char>,
    url: Seq<char>,
    at: i128,
    now: i128,
    other: Seq<char>,
)
    requires
        good.contains_key(channel),
        good[channel] == (url, at),
        at <= now,
        other != url,
    ensures
        now - at < 86401 * 1000000000 ==> good_age(good, channel, url, now) == Some(((now - at) / 1000000000) as u64),
        now - at >= 86401 * 1000000000 ==> good_age(good, channel, url, now) is None,
        good_age(good, channel, other, now) is None,
{
}

} // verus!
