//! The provider's hosts, and which of them answer.
use vstd::prelude::*;
use crate::order::{Ranked, law_ranked, lemma_ranked_by_map, lemma_ranked_contains, lex_lt, own_rank, ranked_by, sort_ranked};
use crate::text::{opt_text, owned, texts};
use crate::xtream::UserInfo;

verus! {

/// What the last probe of a host told.
#[derive(Debug)]
pub struct HostStatus {
    pub host: String,
    pub alive: bool,
    pub latency_ms: Option<u64>,
    /// In nanoseconds since the Unix epoch.
    pub last_probe: Option<i128>,
    pub error: Option<String>,
}

/// The contents of a `HostStatus`.
pub struct StatusView {
    pub host: Seq<char>,
    pub alive: bool,
    pub latency_ms: Option<u64>,
    pub last_probe: Option<i128>,
    pub error: Option<Seq<char>>,
}

impl View for HostStatus {
    type V = StatusView;

    open spec fn view(&self) -> StatusView {
        StatusView {
            host: self.host@,
            alive: self.alive,
            latency_ms: self.latency_ms,
            last_probe: self.last_probe,
            error: opt_text(self.error),
        }
    }
}

impl Clone for HostStatus {
    fn clone(&self) -> (r: Self)
        ensures
            r@ == self@,
    {
        HostStatus {
            host: self.host.clone(),
            alive: self.alive,
            latency_ms: self.latency_ms,
            last_probe: self.last_probe,
            error: self.error.clone(),
        }
    }
}

/// What a probe told.
#[derive(Debug)]
pub struct ProbeResult {
    pub alive: bool,
    pub latency_ms: Option<u64>,
    pub error: Option<String>,
}

/// How a request for the account's data ended.
#[derive(Debug)]
pub enum ProbeOutcome {
    Answered(UserInfo),
    Failed(String),
    TimedOut,
}

/// A host is alive where it answers and lets the account in.
pub fn judge_probe(outcome: ProbeOutcome, elapsed_ms: u64) -> (r: ProbeResult)
    ensures
        r.alive == (outcome matches ProbeOutcome::Answered(info) && info.authenticated()),
        r.latency_ms == if outcome is Answered {
            Some(elapsed_ms)
        } else {
            None
        },
        opt_text(r.error) == match outcome {
            ProbeOutcome::Answered(info) => if info.authenticated() {
                None
            } else {
                Some("auth=0"@)
            },
            ProbeOutcome::Failed(e) => Some(e@),
            ProbeOutcome::TimedOut => Some("timeout"@),
        },
{
    match outcome {
        ProbeOutcome::Answered(info) => if info.is_authenticated() {
            ProbeResult { alive: true, latency_ms: Some(elapsed_ms), error: None }
        } else {
            ProbeResult { alive: false, latency_ms: Some(elapsed_ms), error: Some(owned("auth=0")) }
        },
        ProbeOutcome::Failed(e) => ProbeResult { alive: false, latency_ms: None, error: Some(e) },
        ProbeOutcome::TimedOut => ProbeResult { alive: false, latency_ms: None, error: Some(owned("timeout")) },
    }
}

/// All hosts, in the order of the configuration.
#[derive(Debug)]
pub struct HostState {
    pub statuses: Vec<HostStatus>,
}

/// The contents of each status.
pub open spec fn status_views(v: Seq<HostStatus>) -> Seq<StatusView> {
    v.map_values(|s: HostStatus| s@)
}

impl View for HostState {
    type V = Seq<StatusView>;

    open spec fn view(&self) -> Seq<StatusView> {
        status_views(self.statuses@)
    }
}

/// A host of which nothing is known.
pub open spec fn unknown_host(host: Seq<char>) -> StatusView {
    StatusView { host, alive: false, latency_ms: None, last_probe: None, error: None }
}

/// The first status of a host, or the number of statuses.
pub open spec fn first_status(s: Seq<StatusView>, host: Seq<char>) -> int
    decreases s.len(),
{
    if s.len() == 0 || s[0].host == host {
        0
    } else {
        1 + first_status(s.skip(1), host)
    }
}

/// The latency of a host; the greatest number where there is none.
pub open spec fn latency(s: StatusView) -> u64 {
    match s.latency_ms {
        Some(l) => l,
        None => u64::MAX,
    }
}

/// The hosts that are alive, each with its latency.
pub open spec fn alive_hosts(s: Seq<StatusView>) -> Seq<(u64, Seq<char>)>
    decreases s.len(),
{
    if s.len() == 0 {
        Seq::empty()
    } else if s.last().alive {
        alive_hosts(s.drop_last()).push((latency(s.last()), s.last().host))
    } else {
        alive_hosts(s.drop_last())
    }
}

/// By latency.
pub open spec fn latency_rank() -> spec_fn((u64, Seq<char>)) -> Seq<int> {
    |p: (u64, Seq<char>)| seq![p.0 as int]
}

/// The hosts that are alive, the fastest first; equally fast ones stay in their order.
pub open spec fn alive_ranked(s: Seq<StatusView>) -> Seq<Seq<char>> {
    ranked_by(alive_hosts(s), latency_rank()).map_values(|p: (u64, Seq<char>)| p.1)
}

impl Ranked for (u64, String) {
    open spec fn rank(&self) -> Seq<int> {
        seq![self.0 as int]
    }

    fn precedes(&self, other: &Self) -> (r: bool) {
        proof {
            reveal_with_fuel(lex_lt, 2);
        }
        self.0 < other.0
    }
}

impl HostState {
    pub fn new(hosts: &[String]) -> (r: Self)
        ensures
            r@ == texts(hosts@).map_values(|h: Seq<char>| unknown_host(h)),
    {
        let mut statuses: Vec<HostStatus> = Vec::new();
        let ghost want = texts(hosts@).map_values(|h: Seq<char>| unknown_host(h));
        let mut i: usize = 0;
        while i < hosts.len()
            invariant
                i <= hosts@.len(),
                want == texts(hosts@).map_values(|h: Seq<char>| unknown_host(h)),
                status_views(statuses@) == want.take(i as int),
            decreases hosts@.len() - i,
        {
            let ghost was = statuses@;
            let s = HostStatus {
                host: hosts[i].clone(),
                alive: false,
                latency_ms: None,
                last_probe: None,
                error: None,
            };
            statuses.push(s);
            proof {
                assert(status_views(statuses@) =~= status_views(was).push(s@));
                assert(status_views(statuses@) =~= want.take(i + 1));
            }
            i = i + 1;
        }
        proof {
            assert(want.take(i as int) =~= want);
        }
        HostState { statuses }
    }

    pub fn snapshot(&self) -> (r: Vec<HostStatus>)
        ensures
            status_views(r@) == self@,
    {
        let mut out: Vec<HostStatus> = Vec::new();
        let mut i: usize = 0;
        while i < self.statuses.len()
            invariant
                i <= self.statuses@.len(),
                status_views(out@) == self@.take(i as int),
            decreases self.statuses@.len() - i,
        {
            let ghost was = out@;
            let s = self.statuses[i].clone();
            out.push(s);
            proof {
                assert(status_views(out@) =~= status_views(was).push(s@));
                assert(status_views(out@) =~= self@.take(i + 1));
            }
            i = i + 1;
        }
        proof {
            assert(self@.take(i as int) =~= self@);
        }
        out
    }

    /// The hosts that are alive, the fastest first.
    pub fn alive_hosts_ranked(&self) -> (r: Vec<String>)
        ensures
            texts(r@) == alive_ranked(self@),
    {
        let ghost f = |p: (u64, String)| (p.0, p.1@);
        let mut pairs: Vec<(u64, String)> = Vec::new();
        let mut i: usize = 0;
        while i < self.statuses.len()
            invariant
                i <= self.statuses@.len(),
                f == |p: (u64, String)| (p.0, p.1@),
                pairs@.map_values(f) == alive_hosts(self@.take(i as int)),
            decreases self.statuses@.len() - i,
        {
            let s = &self.statuses[i];
            let ghost was = pairs@;
            proof {
                assert(self@.take(i + 1).drop_last() =~= self@.take(i as int));
                assert(self@.take(i + 1).last() == s@);
            }
            if s.alive {
                let p = (s.latency_ms.unwrap_or(u64::MAX), s.host.clone());
                pairs.push(p);
                proof {
                    assert(pairs@.map_values(f) =~= was.map_values(f).push((latency(s@), s@.host)));
                }
            }
            i = i + 1;
        }
        let ghost all = pairs@;
        let sorted = sort_ranked(pairs);
        proof {
            assert(self@.take(i as int) =~= self@);
            lemma_ranked_by_map(all, f, own_rank(), latency_rank());
        }
        let ghost done = sorted@;
        let mut out: Vec<String> = Vec::new();
        for p in it: sorted
            invariant
                it.seq() == done,
                texts(out@) == done.map_values(f).map_values(|p: (u64, Seq<char>)| p.1).take(it.index()),
                f == |p: (u64, String)| (p.0, p.1@),
        {
            let ghost was = out@;
            let ghost k = it.index();
            out.push(p.1);
            proof {
                assert(done[k] == p);
                assert(texts(out@) =~= texts(was).push(p.1@));
                assert(texts(out@) =~= done.map_values(f).map_values(|p: (u64, Seq<char>)| p.1).take(k + 1));
            }
        }
        proof {
            assert(texts(out@) =~= alive_ranked(self@));
        }
        out
    }

    /// Takes note of what a probe told of a host.
    pub fn update(&mut self, host: &str, result: ProbeResult, now: i128)
        ensures
            ({
                let i = first_status(old(self)@, host@);
                final(self)@ == if i < old(self)@.len() {
                    old(self)@.update(
                        i,
                        StatusView {
                            host: host@,
                            alive: result.alive,
                            latency_ms: result.latency_ms,
                            last_probe: Some(now),
                            error: opt_text(result.error),
                        },
                    )
                } else {
                    old(self)@
                }
            }),
    {
        let ghost start = self@;
        let name = owned(host);
        let mut i: usize = 0;
        proof {
            assert(start.skip(0) =~= start);
        }
        while i < self.statuses.len() && self.statuses[i].host != name
            invariant
                i <= self.statuses@.len(),
                start == self@,
                name@ == host@,
                first_status(start, host@) == i + first_status(start.skip(i as int), host@),
            decreases self.statuses@.len() - i,
        {
            proof {
                assert(start.skip(i as int)[0] == self.statuses@[i as int]@);
                assert(start.skip(i as int).skip(1) =~= start.skip(i + 1));
            }
            i = i + 1;
        }
        if i < self.statuses.len() {
            proof {
                assert(start.skip(i as int)[0] == self.statuses@[i as int]@);
            }
            let next = HostStatus {
                host: name,
                alive: result.alive,
                latency_ms: result.latency_ms,
                last_probe: Some(now),
                error: result.error,
            };
            self.statuses.set(i, next);
            proof {
                assert(self@ =~= start.update(i as int, next@));
            }
        }
    }
}

/// Some status says that the host is alive.
pub open spec fn is_alive(s: Seq<StatusView>, host: Seq<char>) -> bool {
    exists|i: int| 0 <= i < s.len() && (#[trigger] s[i]).alive && s[i].host == host
}

/// Hosts that do not answer are never offered, and all that answer are.
pub proof fn law_only_alive_hosts_are_offered(s: Seq<StatusView>, host: Seq<char>)
    ensures
        alive_ranked(s).contains(host) <==> is_alive(s, host),
{
    let a = alive_hosts(s);
    let r = ranked_by(a, latency_rank());
    let names = alive_ranked(s);
    lemma_alive_hosts(s);
    if names.contains(host) {
        let k = choose|k: int| 0 <= k < names.len() && names[k] == host;
        lemma_ranked_contains(a, latency_rank(), r[k]);
        assert(r.contains(r[k]));
        let j = choose|j: int| 0 <= j < a.len() && a[j] == r[k];
        assert(a[j].1 == host);
    }
    if is_alive(s, host) {
        let i = choose|i: int| 0 <= i < s.len() && (#[trigger] s[i]).alive && s[i].host == host;
        let p = (latency(s[i]), s[i].host);
        assert(a.contains(p));
        lemma_ranked_contains(a, latency_rank(), p);
        let k = choose|k: int| 0 <= k < r.len() && r[k] == p;
        assert(names[k] == host);
    }
}

proof fn lemma_alive_hosts(s: Seq<StatusView>)
    ensures
        forall|j: int| 0 <= j < alive_hosts(s).len() ==> is_alive(s, (#[trigger] alive_hosts(s)[j]).1),
        forall|i: int| 0 <= i < s.len() && (#[trigger] s[i]).alive ==> alive_hosts(s).contains((latency(s[i]), s[i].host)),
    decreases s.len(),
{
    if s.len() > 0 {
        let t = s.drop_last();
        lemma_alive_hosts(t);
        let a = alive_hosts(s);
        let b = alive_hosts(t);
        assert forall|j: int| 0 <= j < a.len() implies is_alive(s, (#[trigger] a[j]).1) by {
            if j < b.len() {
                assert(a[j] == b[j]);
                let i = choose|i: int| 0 <= i < t.len() && (#[trigger] t[i]).alive && t[i].host == b[j].1;
                assert(s[i] == t[i]);
            } else {
                assert(s[s.len() - 1].alive);
            }
        }
        assert forall|i: int| 0 <= i < s.len() && (#[trigger] s[i]).alive implies a.contains((latency(s[i]), s[i].host)) by {
            let p = (latency(s[i]), s[i].host);
            if i < t.len() {
                assert(t[i] == s[i]);
                let j = choose|j: int| 0 <= j < b.len() && b[j] == p;
                assert(a[j] == p);
            } else {
                assert(a[b.len() as int] == p);
            }
        }
    }
}

/// Faster hosts are offered before slower ones, and those whose speed is not known come last.
pub proof fn law_faster_hosts_come_first(s: Seq<StatusView>, i: int, j: int)
    requires
        0 <= i < j < alive_ranked(s).len(),
    ensures
        exists|a: int, b: int|
            #![trigger s[a], s[b]]
            0 <= a < s.len() && 0 <= b < s.len() && s[a].host == alive_ranked(s)[i] && s[b].host == alive_ranked(s)[j]
                && s[a].alive && s[b].alive && (s[b].latency_ms matches Some(slow) ==> s[a].latency_ms matches Some(fast) && fast
                <= slow || s[a].latency_ms is None && slow == u64::MAX),
{
    let a = alive_hosts(s);
    let r = ranked_by(a, latency_rank());
    law_ranked(a, latency_rank());
    assert(!lex_lt(latency_rank()(r[j]), latency_rank()(r[i])));
    reveal_with_fuel(lex_lt, 2);
    assert(r[i].0 <= r[j].0);
    lemma_ranked_contains(a, latency_rank(), r[i]);
    lemma_ranked_contains(a, latency_rank(), r[j]);
    assert(r.contains(r[i]) && r.contains(r[j]));
    let x = choose|x: int| 0 <= x < a.len() && a[x] == r[i];
    let y = choose|y: int| 0 <= y < a.len() && a[y] == r[j];
    let p = lemma_alive_pair(s, x);
    let q = lemma_alive_pair(s, y);
    assert(s[p].host == alive_ranked(s)[i] && s[q].host == alive_ranked(s)[j]);
}

proof fn lemma_alive_pair(s: Seq<StatusView>, j: int) -> (i: int)
    requires
        0 <= j < alive_hosts(s).len(),
    ensures
        0 <= i < s.len(),
        s[i].alive,
        alive_hosts(s)[j] == (latency(s[i]), s[i].host),
    decreases s.len(),
{
    let t = s.drop_last();
    if j < alive_hosts(t).len() {
        let i = lemma_alive_pair(t, j);
        assert(s[i] == t[i]);
        i
    } else {
        s.len() - 1
    }
}

proof fn lemma_first_status(s: Seq<StatusView>, host: Seq<char>, k: int)
    requires
        0 <= k < s.len(),
        s[k].host == host,
        forall|j: int| 0 <= j < k ==> (#[trigger] s[j]).host != host,
    ensures
        first_status(s, host) == k,
    decreases k,
{
    if k > 0 {
        assert(s[0].host != host);
        let t = s.skip(1);
        assert forall|j: int| 0 <= j < k - 1 implies (#[trigger] t[j]).host != host by {
            assert(t[j] == s[j + 1]);
        }
        lemma_first_status(t, host, k - 1);
    }
}

/// A host is found by its name: the first status with it, and none where there is none.
pub proof fn law_hosts_are_found_by_name(s: Seq<StatusView>, host: Seq<char>, k: int)
    requires
        0 <= k < s.len(),
        s[k].host == host,
        forall|j: int| 0 <= j < k ==> (#[trigger] s[j]).host != host,
    ensures
        first_status(s, host) == k,
        first_status(s.take(k), host) == k,
{
    lemma_first_status(s, host, k);
    lemma_no_status(s.take(k), host);
}

proof fn lemma_no_status(s: Seq<StatusView>, host: Seq<char>)
    requires
        forall|j: int| 0 <= j < s.len() ==> (#[trigger] s[j]).host != host,
    ensures
        first_status(s, host) == s.len(),
    decreases s.len(),
{
    if s.len() > 0 {
        assert(s[0].host != host);
        let t = s.skip(1);
        assert forall|j: int| 0 <= j < t.len() implies (#[trigger] t[j]).host != host by {
            assert(t[j] == s[j + 1]);
        }
        lemma_no_status(t, host);
    }
}

/// A host of which nothing is known is not offered.
pub proof fn law_unknown_hosts_are_not_offered(host: Seq<char>)
    ensures
        unknown_host(host).host == host,
        alive_ranked(seq![unknown_host(host)]).len() == 0,
{
    reveal_with_fuel(alive_hosts, 2);
    assert(seq![unknown_host(host)].drop_last() =~= Seq::empty());
    law_ranked(alive_hosts(seq![unknown_host(host)]), latency_rank());
}

} // verus!
