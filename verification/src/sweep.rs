//! Rounds of probes over the whole catalog: which stream is probed next, and when it may start.
use vstd::prelude::*;
use crate::canonical::{CanonicalSource, ChannelView, SourceView, channel_views};
use crate::catalog::CatalogSnapshot;
use crate::clock::elapsed_secs;
use crate::measured::{MeasuredStore, window};
use crate::probe::{has_capacity, needs_reprobe, probe_targets, source_targets, spare_probes, target_texts};
use crate::text::texts;
use crate::xtream::{ChannelKind, XtreamClient};

verus! {

/// Milliseconds between the starts of two probes.
pub const PROBE_GAP_MILLIS: u64 = 500;

/// Why streams are probed.
#[derive(Debug, Clone, Copy, PartialEq, Eq, Structural)]
pub enum SweepKind {
    /// To measure once what was never measured.
    Bootstrap,
    /// To measure again what was measured longer ago than `ttl_secs`, with at least `max_cons`
    /// connections to share.
    Freshness { ttl_secs: u64, max_cons: u32 },
}

/// A stream on a host that is to be probed.
#[derive(Debug)]
pub struct ProbeJob {
    pub stream_id: u64,
    pub host: String,
    pub url: String,
    pub radio: bool,
}

/// The contents of a `ProbeJob`.
pub struct JobView {
    pub stream_id: u64,
    pub host: Seq<char>,
    pub url: Seq<char>,
    pub radio: bool,
}

impl View for ProbeJob {
    type V = JobView;

    open spec fn view(&self) -> JobView {
        JobView { stream_id: self.stream_id, host: self.host@, url: self.url@, radio: self.radio }
    }
}

/// The contents of each job.
pub open spec fn job_views(v: Seq<ProbeJob>) -> Seq<JobView> {
    v.map_values(|j: ProbeJob| j@)
}

/// What the server is doing meanwhile.
#[derive(Debug, Clone, Copy)]
pub struct Pulse {
    pub active_plays: usize,
    /// How many connections the provider allows.
    pub max_cons: u32,
    /// How many probes are under way.
    pub running: usize,
    pub now: i128,
}

/// The jobs of a source.
pub open spec fn source_jobs(client: XtreamClient, kind: ChannelKind, s: SourceView, alive: Seq<Seq<char>>) -> Seq<JobView> {
    source_targets(client, kind, s, alive).map_values(
        |t: (Seq<char>, Seq<char>)|
            JobView { stream_id: s.stream_id, host: t.0, url: t.1, radio: kind == ChannelKind::Radio },
    )
}

/// The jobs of a channel, from source `i` on.
pub open spec fn channel_jobs(client: XtreamClient, c: ChannelView, i: int, alive: Seq<Seq<char>>) -> Seq<JobView>
    decreases c.sources.len() - i,
{
    if i < 0 || i >= c.sources.len() {
        Seq::empty()
    } else {
        source_jobs(client, c.kind, c.sources[i], alive) + channel_jobs(client, c, i + 1, alive)
    }
}

/// The jobs of all channels, from channel `k` on, and there from source `i` on.
pub open spec fn jobs_from(client: XtreamClient, cs: Seq<ChannelView>, k: int, i: int, alive: Seq<Seq<char>>) -> Seq<JobView>
    decreases cs.len() - k,
{
    if k < 0 || k >= cs.len() {
        Seq::empty()
    } else {
        channel_jobs(client, cs[k], i, alive) + jobs_from(client, cs, k + 1, 0, alive)
    }
}

/// The stream is to be probed.
pub open spec fn wanted(kind: SweepKind, measured: MeasuredStore, j: JobView, now: i128) -> bool {
    let w = window(measured@, j.stream_id, j.host);
    match kind {
        SweepKind::Bootstrap => w.len() == 0,
        SweepKind::Freshness { ttl_secs, max_cons } => w.len() > 0 ==> elapsed_secs(now as int, w.last().at) >= ttl_secs,
    }
}

/// How many jobs come before the first that is wanted.
pub open spec fn idle(kind: SweepKind, measured: MeasuredStore, jobs: Seq<JobView>, now: i128) -> nat
    decreases jobs.len(),
{
    if jobs.len() == 0 || wanted(kind, measured, jobs[0], now) {
        0
    } else {
        1 + idle(kind, measured, jobs.skip(1), now)
    }
}

/// A probe may start: the first round waits until nobody watches, the others share the
/// connections that plays leave.
pub open spec fn may_start(kind: SweepKind, p: Pulse) -> bool {
    match kind {
        SweepKind::Bootstrap => p.active_plays == 0,
        SweepKind::Freshness { ttl_secs, max_cons } => p.running < spare_probes(
            if p.max_cons >= max_cons {
                p.max_cons as nat
            } else {
                max_cons as nat
            },
            p.active_plays as nat,
        ),
    }
}

/// How long to wait before looking again, in milliseconds.
pub open spec fn patience(kind: SweepKind) -> u64 {
    match kind {
        SweepKind::Bootstrap => 200,
        SweepKind::Freshness { .. } => 500,
    }
}

/// The number, as far as the type goes.
pub open spec fn counted(n: int) -> usize {
    if n <= usize::MAX {
        n as usize
    } else {
        usize::MAX
    }
}

/// A round of probes.
#[derive(Debug)]
pub struct Sweep {
    pub kind: SweepKind,
    /// The channel that is walked, and the source in it that comes next.
    pub channel: usize,
    pub source: usize,
    /// The jobs of the source that is walked, the next one last.
    pub queue: Vec<ProbeJob>,
    /// The job that waits to start.
    pub waiting: Option<ProbeJob>,
    pub started: usize,
    pub skipped: usize,
}

/// What to do next in a round.
#[derive(Debug)]
pub enum SweepStep {
    /// Probe this now.
    Start(ProbeJob),
    /// Look again in so many milliseconds.
    Wait { millis: u64 },
    Done,
}

impl Sweep {
    /// The jobs that are left, where a source that is not yet walked is asked for on the hosts
    /// `alive`.
    pub open spec fn left(self, client: XtreamClient, snap: CatalogSnapshot, alive: Seq<Seq<char>>) -> Seq<JobView> {
        job_views(self.queue@).reverse() + jobs_from(
            client,
            channel_views(snap.channels@),
            self.channel as int,
            self.source as int,
            alive,
        )
    }

    pub fn start(kind: SweepKind) -> (r: Self)
        ensures
            r.kind == kind,
            r.waiting is None,
            r.started == 0,
            r.skipped == 0,
            forall|client: XtreamClient, snap: CatalogSnapshot, alive: Seq<Seq<char>>| #[trigger]
                r.left(client, snap, alive) == jobs_from(client, channel_views(snap.channels@), 0, 0, alive),
    {
        let r = Sweep { kind, channel: 0, source: 0, queue: Vec::new(), waiting: None, started: 0, skipped: 0 };
        proof {
            assert forall|client: XtreamClient, snap: CatalogSnapshot, alive: Seq<Seq<char>>| #[trigger]
                r.left(client, snap, alive) == jobs_from(client, channel_views(snap.channels@), 0, 0, alive) by {
                assert(r.left(client, snap, alive) =~= jobs_from(client, channel_views(snap.channels@), 0, 0, alive));
            }
        }
        r
    }

    fn is_wanted(&self, measured: &MeasuredStore, j: &ProbeJob, now: i128) -> (r: bool)
        ensures
            r == wanted(self.kind, *measured, j@, now),
    {
        match self.kind {
            SweepKind::Bootstrap => !measured.has_samples(j.stream_id, &j.host),
            SweepKind::Freshness { ttl_secs, max_cons } => needs_reprobe(
                measured.most_recent_at(j.stream_id, &j.host),
                now,
                ttl_secs,
            ),
        }
    }

    /// Goes on to the next source that is there.
    fn enter(&mut self, client: &XtreamClient, snap: &CatalogSnapshot, alive: &[String])
        requires
            old(self).queue@.len() == 0,
            old(self).channel < snap.channels@.len(),
        ensures
            final(self).kind == old(self).kind,
            final(self).waiting == old(self).waiting,
            final(self).started == old(self).started,
            final(self).skipped == old(self).skipped,
            final(self).left(*client, *snap, texts(alive@)) == old(self).left(*client, *snap, texts(alive@)),
            final(self).channel <= snap.channels@.len(),
            final(self).channel == old(self).channel + 1 || (final(self).channel == old(self).channel && final(self).source
                == old(self).source + 1 && final(self).source <= snap.channels@[final(self).channel as int].sources@.len()),
    {
        let ghost names = texts(alive@);
        let ghost cs = channel_views(snap.channels@);
        let ghost k = self.channel as int;
        let c = &snap.channels[self.channel];
        proof {
            assert(snap.channels@.len() == snap.channels.len());
            assert(cs[k] == c@);
            assert(job_views(self.queue@).reverse() =~= Seq::empty());
        }
        if self.source >= c.sources.len() {
            self.channel = self.channel + 1;
            self.source = 0;
            proof {
                assert(channel_jobs(*client, c@, old(self).source as int, names) =~= Seq::empty());
                assert(self.left(*client, *snap, names) =~= old(self).left(*client, *snap, names));
            }
            return;
        }
        let s = &c.sources[self.source];
        self.queue = list_jobs(client, c.kind, s, alive);
        self.source = self.source + 1;
        proof {
            assert(c@.sources[old(self).source as int] == s@);
            assert(self.left(*client, *snap, names) =~= old(self).left(*client, *snap, names));
        }
    }

    /// Takes the next job that is wanted.
    fn next_job(&mut self, client: &XtreamClient, snap: &CatalogSnapshot, measured: &MeasuredStore, alive: &[String], now: i128)
        -> (r: Option<ProbeJob>)
        ensures
            final(self).kind == old(self).kind,
            final(self).waiting == old(self).waiting,
            final(self).started == old(self).started,
            ({
                let jobs = old(self).left(*client, *snap, texts(alive@));
                let n = idle(old(self).kind, *measured, jobs, now);
                &&& n <= jobs.len()
                &&& final(self).skipped == counted(old(self).skipped + n)
                &&& match r {
                    Some(j) => n < jobs.len() && j@ == jobs[n as int] && final(self).left(*client, *snap, texts(alive@))
                        == jobs.skip(n as int + 1),
                    None => n == jobs.len() && final(self).left(*client, *snap, texts(alive@)).len() == 0,
                }
            }),
    {
        let ghost names = texts(alive@);
        let ghost jobs = self.left(*client, *snap, names);
        let ghost mut passed: int = 0;
        proof {
            assert(jobs.skip(0) =~= jobs);
        }
        loop
            invariant
                names == texts(alive@),
                0 <= passed <= jobs.len(),
                self.kind == old(self).kind,
                self.waiting == old(self).waiting,
                self.started == old(self).started,
                self.skipped == counted(old(self).skipped + passed),
                jobs == old(self).left(*client, *snap, names),
                self.left(*client, *snap, names) == jobs.skip(passed),
                idle(old(self).kind, *measured, jobs, now) == passed + idle(old(self).kind, *measured, jobs.skip(passed), now),
            decreases
                    snap.channels@.len() - self.channel,
                    (if self.channel < snap.channels@.len() {
                        snap.channels@[self.channel as int].sources@.len() - self.source
                    } else {
                        0
                    }),
                    self.queue@.len(),
        {
            let ghost rest = jobs.skip(passed);
            let ghost q = self.queue@;
            let ghost tail = jobs_from(
                *client,
                channel_views(snap.channels@),
                self.channel as int,
                self.source as int,
                names,
            );
            match self.queue.pop() {
                Some(j) => {
                    proof {
                        assert(q.last() == j);
                        assert(job_views(q).reverse()[0] == j@);
                        assert(rest[0] == j@);
                        assert(job_views(self.queue@) =~= job_views(q).drop_last());
                        assert(self.left(*client, *snap, names) =~= rest.skip(1));
                        assert(rest.skip(1) =~= jobs.skip(passed + 1));
                        assert(jobs[passed] == rest[0]);
                    }
                    if self.is_wanted(measured, &j, now) {
                        return Some(j);
                    }
                    self.skipped = self.skipped.saturating_add(1);
                    proof {
                        passed = passed + 1;
                    }
                },
                None => {
                    if self.channel >= snap.channels.len() {
                        proof {
                            assert(self.left(*client, *snap, names) =~= Seq::empty());
                            assert(rest.len() == jobs.len() - passed);
                        }
                        return None;
                    }
                    self.enter(client, snap, alive);
                },
            }
        }
    }

    /// The next step of the round, as things stand.
    pub fn step(
        &mut self,
        client: &XtreamClient,
        snap: &CatalogSnapshot,
        measured: &MeasuredStore,
        alive: &[String],
        pulse: Pulse,
    ) -> (r: SweepStep)
        ensures
            final(self).kind == old(self).kind,
            ({
                let jobs = old(self).left(*client, *snap, texts(alive@));
                let n = idle(old(self).kind, *measured, jobs, pulse.now);
                let next = match old(self).waiting {
                    Some(j) => Some(j@),
                    None => if n < jobs.len() {
                        Some(jobs[n as int])
                    } else {
                        None
                    },
                };
                &&& final(self).skipped == if old(self).waiting is None {
                    counted(old(self).skipped + n)
                } else {
                    old(self).skipped
                }
                &&& final(self).left(*client, *snap, texts(alive@)) == if old(self).waiting is Some {
                    jobs
                } else if n < jobs.len() {
                    jobs.skip(n as int + 1)
                } else {
                    Seq::empty()
                }
                &&& match next {
                    Some(v) => if may_start(old(self).kind, pulse) {
                        (r matches SweepStep::Start(j) && j@ == v) && final(self).waiting is None && final(self).started
                            == counted(old(self).started + 1)
                    } else {
                        (r matches SweepStep::Wait { millis } && millis == patience(old(self).kind)) && (
                        final(self).waiting matches Some(j) && j@ == v) && final(self).started == old(self).started
                    },
                    None => r is Done && final(self).waiting is None && final(self).started == old(self).started,
                }
            }),
    {
        let job = match self.waiting.take() {
            Some(j) => j,
            None => match self.next_job(client, snap, measured, alive, pulse.now) {
                Some(j) => j,
                None => {
                    proof {
                        assert(self.left(*client, *snap, texts(alive@)) =~= Seq::empty());
                    }
                    return SweepStep::Done;
                },
            },
        };
        let (ready, millis): (bool, u64) = match self.kind {
            SweepKind::Bootstrap => (pulse.active_plays == 0, 200),
            SweepKind::Freshness { ttl_secs, max_cons } => (
                has_capacity(pulse.max_cons, max_cons, pulse.active_plays, pulse.running),
                500,
            ),
        };
        if ready {
            self.started = self.started.saturating_add(1);
            SweepStep::Start(job)
        } else {
            self.waiting = Some(job);
            SweepStep::Wait { millis }
        }
    }
}

fn list_jobs(client: &XtreamClient, kind: ChannelKind, s: &CanonicalSource, alive: &[String]) -> (r: Vec<ProbeJob>)
    ensures
        job_views(r@).reverse() == source_jobs(*client, kind, s@, texts(alive@)),
{
    let mut targets = probe_targets(client, kind, s, alive);
    let ghost all = target_texts(targets@);
    let ghost jobs = source_jobs(*client, kind, s@, texts(alive@));
    let mut out: Vec<ProbeJob> = Vec::new();
    while targets.len() > 0
        invariant
            all == source_targets(*client, kind, s@, texts(alive@)),
            jobs == source_jobs(*client, kind, s@, texts(alive@)),
            targets@.len() + out@.len() == all.len(),
            target_texts(targets@) == all.take(targets@.len() as int),
            job_views(out@).reverse() == jobs.skip(targets@.len() as int),
        decreases targets@.len(),
    {
        let ghost was = job_views(out@);
        let ghost before = targets@;
        if let Some((host, url)) = targets.pop() {
            proof {
                assert(target_texts(before)[before.len() - 1] == (host@, url@));
                assert(all[before.len() - 1] == (host@, url@));
            }
            let j = ProbeJob { stream_id: s.stream_id, host, url, radio: kind == ChannelKind::Radio };
            let ghost v = j@;
            out.push(j);
            proof {
                assert(job_views(out@) =~= was.push(v));
                assert(jobs[before.len() - 1] == v);
                assert(was.push(v).reverse() =~= seq![v] + was.reverse());
                assert(jobs.skip(before.len() - 1) =~= seq![v] + jobs.skip(before.len() as int));
                assert(target_texts(targets@) =~= all.take(targets@.len() as int));
            }
        }
    }
    proof {
        assert(jobs.skip(0) =~= jobs);
    }
    out
}

/// A round comes to an end: each step that starts a probe leaves fewer jobs, and none comes back.
pub proof fn law_rounds_shrink(kind: SweepKind, measured: MeasuredStore, jobs: Seq<JobView>, now: i128)
    ensures
        idle(kind, measured, jobs, now) <= jobs.len(),
        idle(kind, measured, jobs, now) < jobs.len() ==> jobs.skip(idle(kind, measured, jobs, now) as int + 1).len() < jobs.len(),
    decreases jobs.len(),
{
    if jobs.len() > 0 && !wanted(kind, measured, jobs[0], now) {
        law_rounds_shrink(kind, measured, jobs.skip(1), now);
    }
}

/// What is skipped is not wanted, and what comes next is.
pub proof fn law_only_the_wanted_is_probed(kind: SweepKind, measured: MeasuredStore, jobs: Seq<JobView>, now: i128, i: int)
    requires
        0 <= i <= idle(kind, measured, jobs, now),
        i < jobs.len(),
    ensures
        wanted(kind, measured, jobs[i], now) == (i == idle(kind, measured, jobs, now)),
    decreases jobs.len(),
{
    if !wanted(kind, measured, jobs[0], now) && i > 0 {
        law_only_the_wanted_is_probed(kind, measured, jobs.skip(1), now, i - 1);
        assert(jobs.skip(1)[i - 1] == jobs[i]);
    }
}

/// No probe of the first round starts while somebody watches.
pub proof fn law_viewers_come_first(p: Pulse)
    ensures
        p.active_plays > 0 ==> !may_start(SweepKind::Bootstrap, p),
{
}

/// A round goes to every source of television on every host that is alive.
pub proof fn law_rounds_go_everywhere(client: XtreamClient, cs: Seq<ChannelView>, alive: Seq<Seq<char>>, k: int, i: int, h: int)
    requires
        0 <= k < cs.len(),
        cs[k].kind == ChannelKind::Tv,
        0 <= i < cs[k].sources.len(),
        0 <= h < alive.len(),
    ensures
        jobs_from(client, cs, 0, 0, alive).contains(
            JobView {
                stream_id: cs[k].sources[i].stream_id,
                host: alive[h],
                url: client.live_url(alive[h], cs[k].sources[i].stream_id as nat, "m3u8"@),
                radio: false,
            },
        ),
{
    let c = cs[k];
    let jobs = source_jobs(client, c.kind, c.sources[i], alive);
    let j = jobs[h];
    assert(jobs.contains(j));
    lemma_channel_has_job(client, c, 0, i, alive, j);
    lemma_round_has_job(client, cs, 0, k, alive, j);
}

proof fn lemma_channel_has_job(client: XtreamClient, c: ChannelView, from: int, i: int, alive: Seq<Seq<char>>, j: JobView)
    requires
        0 <= from <= i < c.sources.len(),
        source_jobs(client, c.kind, c.sources[i], alive).contains(j),
    ensures
        channel_jobs(client, c, from, alive).contains(j),
    decreases i - from,
{
    let a = source_jobs(client, c.kind, c.sources[from], alive);
    let b = channel_jobs(client, c, from + 1, alive);
    if from < i {
        lemma_channel_has_job(client, c, from + 1, i, alive, j);
        let x = choose|x: int| 0 <= x < b.len() && b[x] == j;
        assert((a + b)[a.len() + x] == j);
    } else {
        let x = choose|x: int| 0 <= x < a.len() && a[x] == j;
        assert((a + b)[x] == j);
    }
}

proof fn lemma_round_has_job(client: XtreamClient, cs: Seq<ChannelView>, from: int, k: int, alive: Seq<Seq<char>>, j: JobView)
    requires
        0 <= from <= k < cs.len(),
        channel_jobs(client, cs[k], 0, alive).contains(j),
    ensures
        jobs_from(client, cs, from, 0, alive).contains(j),
    decreases k - from,
{
    let a = channel_jobs(client, cs[from], 0, alive);
    let b = jobs_from(client, cs, from + 1, 0, alive);
    if from < k {
        lemma_round_has_job(client, cs, from + 1, k, alive, j);
        let x = choose|x: int| 0 <= x < b.len() && b[x] == j;
        assert((a + b)[a.len() + x] == j);
    } else {
        let x = choose|x: int| 0 <= x < a.len() && a[x] == j;
        assert((a + b)[x] == j);
    }
}

/// The first round probes what was never measured; the others what was not, or not within the time
/// that measurements last.
pub proof fn law_fresh_measurements_wait(ttl_secs: u64, max_cons: u32, measured: MeasuredStore, j: JobView, now: i128)
    requires
        ttl_secs > 0,
    ensures
        ({
            let w = window(measured@, j.stream_id, j.host);
            let again = wanted(SweepKind::Freshness { ttl_secs, max_cons }, measured, j, now);
            &&& wanted(SweepKind::Bootstrap, measured, j, now) <==> w.len() == 0
            &&& w.len() == 0 ==> again
            &&& w.len() > 0 && now - w.last().at >= ttl_secs * 1000000000 ==> again
            &&& w.len() > 0 && now - w.last().at < ttl_secs * 1000000000 ==> !again
        }),
{
}

/// A probe of a later round starts while fewer than two run and one connection stays free beside
/// those of plays and probes; one of the first round while nobody watches.
pub proof fn law_rounds_leave_room(ttl_secs: u64, max_cons: u32, p: Pulse)
    ensures
        may_start(SweepKind::Bootstrap, p) <==> p.active_plays == 0,
        may_start(SweepKind::Freshness { ttl_secs, max_cons }, p) <==> p.running < 2 && (p.running + p.active_plays + 1
            < p.max_cons || p.running + p.active_plays + 1 < max_cons),
{
}

} // verus!
