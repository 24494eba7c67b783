//! A play: which URL to try next, and what is noted of how it went.
use vstd::prelude::*;
use crate::blacklist::{Blacklist, BlacklistView, FailureKind, MAX_COOL_OFF_STEP, blamed, failed, good_age, state_of};
use crate::clock::{since, span};
use crate::config::ProxyConfig;
use crate::outside::{duration_text, write_duration};
use crate::play_log::{AttemptOutcome, AttemptView, EventView, OutcomeView, PlayAttempt, PlayEvent, PlayLog};
use crate::play_log::{attempt_views, logged};
use crate::play_sessions::{PlaySessions, SessionView, noted};
use crate::proxy::{CandView, Candidate, cand_views};
use crate::text::{decimal, opt_text, owned, push_decimal, push_text};

verus! {

/// What is played.
#[derive(Debug, Clone, Copy, PartialEq, Eq, Structural)]
pub enum PlayMode {
    /// A channel as it is broadcast.
    Live,
    /// A try whether the client can play at all, of which nothing is noted.
    Probe,
    /// Radio that is no playlist.
    Audio,
    /// A recording.
    CatchUp,
}

/// A play that is under way. Times are on a clock that does not go back, in nanoseconds.
#[derive(Debug)]
pub struct Play {
    pub mode: PlayMode,
    pub id: String,
    pub channel: String,
    /// The id that the client gave the play.
    pub pid: Option<String>,
    /// In nanoseconds since the Unix epoch.
    pub started: i128,
    pub began: u64,
    pub budget: u64,
    pub per_attempt: u64,
    pub candidates: Vec<Candidate>,
    /// How many candidates were tried.
    pub tried: usize,
    pub attempts: Vec<PlayAttempt>,
    pub last_err: Option<String>,
    /// When the latest attempt began, and how long it may last.
    pub attempt_began: u64,
    pub attempt_timeout: u64,
}

/// The contents of a `Play`.
pub struct PlayView {
    pub mode: PlayMode,
    pub id: Seq<char>,
    pub channel: Seq<char>,
    pub pid: Option<Seq<char>>,
    pub started: i128,
    pub began: u64,
    pub budget: u64,
    pub per_attempt: u64,
    pub candidates: Seq<CandView>,
    pub tried: nat,
    pub attempts: Seq<AttemptView>,
    pub last_err: Option<Seq<char>>,
    pub attempt_began: u64,
    pub attempt_timeout: u64,
}

impl View for Play {
    type V = PlayView;

    open spec fn view(&self) -> PlayView {
        PlayView {
            mode: self.mode,
            id: self.id@,
            channel: self.channel@,
            pid: opt_text(self.pid),
            started: self.started,
            began: self.began,
            budget: self.budget,
            per_attempt: self.per_attempt,
            candidates: cand_views(self.candidates@),
            tried: self.tried as nat,
            attempts: attempt_views(self.attempts@),
            last_err: opt_text(self.last_err),
            attempt_began: self.attempt_began,
            attempt_timeout: self.attempt_timeout,
        }
    }
}

/// What to do next.
#[derive(Debug, Clone, Copy, PartialEq, Eq, Structural)]
pub enum PlayStep {
    /// Try this candidate, for this many nanoseconds.
    Try { index: usize, timeout: u64 },
    GiveUp,
}

/// Seconds in nanoseconds, as far as they go.
pub open spec fn nanos(secs: u64) -> u64 {
    if secs * 1000000000 <= u64::MAX {
        (secs * 1000000000) as u64
    } else {
        u64::MAX
    }
}

pub fn secs_to_nanos(secs: u64) -> (r: u64)
    ensures
        r == nanos(secs),
{
    match secs.checked_mul(1000000000) {
        Some(n) => n,
        None => u64::MAX,
    }
}

/// How long a play may look for a URL that works: a probe gives up after the time of two
/// attempts.
pub open spec fn play_budget(mode: PlayMode, config: ProxyConfig) -> u64 {
    let per_attempt = nanos(config.per_attempt_timeout_secs);
    if mode == PlayMode::Probe {
        if per_attempt * 2 <= u64::MAX {
            (per_attempt * 2) as u64
        } else {
            u64::MAX
        }
    } else {
        nanos(config.play_budget_secs)
    }
}

impl PlayView {
    /// The candidate that is tried.
    pub open spec fn current(self) -> CandView {
        self.candidates[self.tried - 1]
    }

    /// How long the next attempt may last.
    pub open spec fn next_timeout(self, now: u64) -> int {
        let left = self.budget - span(now, self.began);
        if self.per_attempt < left {
            self.per_attempt as int
        } else {
            left
        }
    }

    /// What the log says of the latest attempt.
    pub open spec fn attempt(self, outcome: OutcomeView, now: u64) -> AttemptView {
        AttemptView {
            host: self.current().host,
            url: self.current().url,
            elapsed_ms: (span(now, self.attempt_began) / 1000000) as u64,
            outcome,
        }
    }

    /// What the log says of the play.
    pub open spec fn event(self, attempts: Seq<AttemptView>, error: Option<Seq<char>>, now: u64) -> EventView {
        EventView {
            id: self.id,
            started: self.started,
            channel: self.channel,
            catchup: self.mode == PlayMode::CatchUp,
            total_ms: (span(now, self.began) / 1000000) as u64,
            candidates_total: self.candidates.len() as usize,
            succeeded: error is None,
            error,
            attempts,
        }
    }

    /// Why the play failed.
    pub open spec fn fault(self) -> Seq<char> {
        match self.last_err {
            Some(e) => e,
            None => if self.mode == PlayMode::CatchUp {
                "no alive host accepted the request"@
            } else {
                "budget exhausted"@
            },
        }
    }

    /// What the client is told when the play failed.
    pub open spec fn fault_text(self) -> Seq<char> {
        if self.mode == PlayMode::CatchUp {
            "catch-up upstream failed: "@ + self.fault()
        } else {
            "all "@ + decimal(self.tried) + "/"@ + decimal(self.candidates.len()) + (if self.mode == PlayMode::Audio {
                " audio candidates failed for "@
            } else {
                " candidates failed for "@
            }) + self.channel + " (last: "@ + self.fault() + ")"@
        }
    }
}

/// What the blacklist holds after a URL failed upstream.
pub open spec fn after_failure(b: BlacklistView, url: Seq<char>, at: i128) -> BlacklistView {
    BlacklistView { urls: b.urls.insert(url, failed(state_of(b.urls, url), at)), hosts: blamed(b.hosts, url, at), good: b.good }
}

/// What the blacklist holds after a URL worked for a channel.
pub open spec fn after_success(b: BlacklistView, channel: Seq<char>, url: Seq<char>, at: i128) -> BlacklistView {
    BlacklistView { urls: b.urls, hosts: b.hosts, good: b.good.insert(channel, (url, at)) }
}

impl Play {
    pub open spec fn wf(&self) -> bool {
        self.tried <= self.candidates@.len()
    }

    /// An attempt is under way.
    pub open spec fn trying(&self) -> bool {
        0 < self.tried <= self.candidates@.len()
    }

    pub fn start(
        mode: PlayMode,
        id: String,
        channel: String,
        pid: Option<String>,
        candidates: Vec<Candidate>,
        config: &ProxyConfig,
        started: i128,
        now: u64,
    ) -> (r: Self)
        ensures
            r.wf(),
            r@ == (PlayView {
                mode,
                id: id@,
                channel: channel@,
                pid: opt_text(pid),
                started,
                began: now,
                budget: play_budget(mode, *config),
                per_attempt: nanos(config.per_attempt_timeout_secs),
                candidates: cand_views(candidates@),
                tried: 0,
                attempts: Seq::empty(),
                last_err: None,
                attempt_began: now,
                attempt_timeout: 0,
            }),
    {
        let per_attempt = secs_to_nanos(config.per_attempt_timeout_secs);
        let budget = if mode == PlayMode::Probe {
            match per_attempt.checked_mul(2) {
                Some(n) => n,
                None => u64::MAX,
            }
        } else {
            secs_to_nanos(config.play_budget_secs)
        };
        let r = Play {
            mode,
            id,
            channel,
            pid,
            started,
            began: now,
            budget,
            per_attempt,
            candidates,
            tried: 0,
            attempts: Vec::new(),
            last_err: None,
            attempt_began: now,
            attempt_timeout: 0,
        };
        proof {
            assert(attempt_views(r.attempts@) =~= Seq::empty());
        }
        r
    }

    /// The next candidate, while there is one and time is left.
    pub fn step(&mut self, now: u64) -> (r: PlayStep)
        requires
            old(self).wf(),
        ensures
            final(self).wf(),
            match r {
                PlayStep::Try { index, timeout } => {
                    &&& index == old(self).tried
                    &&& index < old(self).candidates@.len()
                    &&& span(now, old(self).began) < old(self).budget
                    &&& timeout == old(self)@.next_timeout(now)
                    &&& final(self).trying()
                    &&& final(self)@ == (PlayView {
                        tried: old(self)@.tried + 1,
                        attempt_began: now,
                        attempt_timeout: timeout,
                        ..old(self)@
                    })
                },
                PlayStep::GiveUp => *final(self) == *old(self) && (old(self).tried == old(self).candidates@.len() || span(
                    now,
                    old(self).began,
                ) >= old(self).budget),
            },
    {
        let elapsed = since(now, self.began);
        if self.tried == self.candidates.len() || elapsed >= self.budget {
            return PlayStep::GiveUp;
        }
        let left: u64 = self.budget - elapsed;
        let timeout = if self.per_attempt < left {
            self.per_attempt
        } else {
            left
        };
        let index: usize = self.tried;
        self.tried = index + 1;
        self.attempt_began = now;
        self.attempt_timeout = timeout;
        PlayStep::Try { index, timeout }
    }

    fn attempt_of(&self, outcome: AttemptOutcome, now: u64) -> (r: PlayAttempt)
        requires
            self.trying(),
        ensures
            r@ == self@.attempt(outcome@, now),
    {
        let c = &self.candidates[self.tried - 1];
        proof {
            assert(self@.candidates[self.tried - 1] == c@);
        }
        PlayAttempt {
            host: c.host.clone(),
            url: c.url.clone(),
            elapsed_ms: since(now, self.attempt_began) / 1000000,
            outcome,
        }
    }

    /// Takes note of an attempt that did not work.
    pub fn note_attempt(&mut self, outcome: AttemptOutcome, error: String, now: u64, at: i128, blacklist: &mut Blacklist)
        requires
            old(self).trying(),
            old(blacklist).wf(),
        ensures
            final(self).wf(),
            final(self)@ == (PlayView {
                attempts: old(self)@.attempts.push(old(self)@.attempt(outcome@, now)),
                last_err: Some(error@),
                ..old(self)@
            }),
            final(blacklist).wf(),
            old(self).mode == PlayMode::Probe ==> *final(blacklist) == *old(blacklist),
            old(self).mode != PlayMode::Probe ==> final(blacklist).dirty && final(blacklist).config == old(blacklist).config
                && final(blacklist)@ == after_failure(old(blacklist)@, old(self)@.current().url, at),
    {
        let a = self.attempt_of(outcome, now);
        if self.mode != PlayMode::Probe {
            blacklist.note_failure(&a.url, FailureKind::ServerSide, at);
        }
        let ghost was = attempt_views(self.attempts@);
        let ghost v = a@;
        self.attempts.push(a);
        self.last_err = Some(error);
        proof {
            assert(attempt_views(self.attempts@) =~= was.push(v));
        }
    }

    /// Takes note of an attempt that failed.
    pub fn note_failed(&mut self, reason: String, now: u64, at: i128, blacklist: &mut Blacklist)
        requires
            old(self).trying(),
            old(blacklist).wf(),
        ensures
            final(self).wf(),
            final(self)@ == (PlayView {
                attempts: old(self)@.attempts.push(old(self)@.attempt(OutcomeView::Failed { reason: reason@ }, now)),
                last_err: Some(reason@),
                ..old(self)@
            }),
            final(blacklist).wf(),
            old(self).mode == PlayMode::Probe ==> *final(blacklist) == *old(blacklist),
            old(self).mode != PlayMode::Probe ==> final(blacklist).dirty && final(blacklist).config == old(blacklist).config
                && final(blacklist)@ == after_failure(old(blacklist)@, old(self)@.current().url, at),
    {
        let error = reason.clone();
        self.note_attempt(AttemptOutcome::Failed { reason }, error, now, at, blacklist);
    }

    /// Takes note of an attempt that took too long.
    pub fn note_timeout(&mut self, now: u64, at: i128, blacklist: &mut Blacklist)
        requires
            old(self).trying(),
            old(blacklist).wf(),
        ensures
            final(self).wf(),
            final(self)@ == (PlayView {
                attempts: old(self)@.attempts.push(old(self)@.attempt(OutcomeView::Timeout, now)),
                last_err: Some("timeout after "@ + duration_text(old(self).attempt_timeout)),
                ..old(self)@
            }),
            final(blacklist).wf(),
            old(self).mode == PlayMode::Probe ==> *final(blacklist) == *old(blacklist),
            old(self).mode != PlayMode::Probe ==> final(blacklist).dirty && final(blacklist).config == old(blacklist).config
                && final(blacklist)@ == after_failure(old(blacklist)@, old(self)@.current().url, at),
    {
        let mut error = owned("timeout after ");
        push_text(&mut error, &write_duration(self.attempt_timeout));
        self.note_attempt(AttemptOutcome::Timeout, error, now, at, blacklist);
    }

    /// Takes note of an attempt that worked, which ends the play.
    pub fn note_played(
        self,
        now: u64,
        at: i128,
        blacklist: &mut Blacklist,
        sessions: &mut PlaySessions,
        log: &mut PlayLog,
    )
        requires
            self.trying(),
            old(blacklist).wf(),
            old(sessions).wf(),
            old(log).wf(),
        ensures
            final(blacklist).wf(),
            final(sessions).wf(),
            final(log).wf(),
            final(log).counter == old(log).counter,
            self.mode == PlayMode::Probe || self.mode == PlayMode::CatchUp ==> *final(blacklist) == *old(blacklist),
            self.mode != PlayMode::Probe && self.mode != PlayMode::CatchUp ==> final(blacklist).dirty
                && final(blacklist).config == old(blacklist).config && final(blacklist)@ == after_success(
                old(blacklist)@,
                self@.channel,
                self@.current().url,
                at,
            ),
            self.mode == PlayMode::Probe || self.pid is None ==> *final(sessions) == *old(sessions),
            self.mode != PlayMode::Probe && self.pid is Some ==> (final(sessions)@, final(sessions).last_sweep) == noted(
                old(sessions)@,
                old(sessions).last_sweep,
                self.pid->0@,
                (SessionView { upstream: self@.current().url, channel_key: self@.channel, inserted: now }),
            ),
            self.mode == PlayMode::Probe ==> *final(log) == *old(log),
            self.mode != PlayMode::Probe ==> final(log)@ == logged(
                old(log)@,
                self@.event(self@.attempts.push(self@.attempt(OutcomeView::Played, now)), None, now),
            ),
    {
        if self.mode == PlayMode::Probe {
            return;
        }
        let a = self.attempt_of(AttemptOutcome::Played, now);
        if self.mode != PlayMode::CatchUp {
            blacklist.note_url_succeeded(&self.channel, &a.url, at);
        }
        if let Some(pid) = &self.pid {
            sessions.note(pid, &self.channel, &a.url, now);
        }
        let total_ms: u64 = since(now, self.began) / 1000000;
        let ghost me = self@;
        let ghost v = a@;
        let mut attempts = self.attempts;
        let ghost was = attempt_views(attempts@);
        attempts.push(a);
        proof {
            assert(attempt_views(attempts@) =~= was.push(v));
        }
        let event = PlayEvent {
            id: self.id,
            started: self.started,
            channel: self.channel,
            catchup: self.mode == PlayMode::CatchUp,
            total_ms,
            candidates_total: self.candidates.len(),
            succeeded: true,
            error: None,
            attempts,
        };
        proof {
            assert(event@ == me.event(me.attempts.push(v), None, now));
        }
        log.record(event);
    }

    /// Takes note of a play that failed, and tells why.
    pub fn give_up(self, now: u64, log: &mut PlayLog) -> (r: String)
        requires
            old(log).wf(),
        ensures
            r@ == self@.fault_text(),
            final(log).wf(),
            final(log).counter == old(log).counter,
            self.mode == PlayMode::Probe ==> *final(log) == *old(log),
            self.mode != PlayMode::Probe ==> final(log)@ == logged(
                old(log)@,
                self@.event(self@.attempts, Some(self@.fault()), now),
            ),
    {
        let ghost me = self@;
        let fault = match self.last_err {
            Some(e) => e,
            None => if self.mode == PlayMode::CatchUp {
                owned("no alive host accepted the request")
            } else {
                owned("budget exhausted")
            },
        };
        let mut text = String::new();
        if self.mode == PlayMode::CatchUp {
            push_text(&mut text, "catch-up upstream failed: ");
            push_text(&mut text, &fault);
        } else {
            push_text(&mut text, "all ");
            push_decimal(&mut text, self.tried as u64);
            push_text(&mut text, "/");
            push_decimal(&mut text, self.candidates.len() as u64);
            if self.mode == PlayMode::Audio {
                push_text(&mut text, " audio candidates failed for ");
            } else {
                push_text(&mut text, " candidates failed for ");
            }
            push_text(&mut text, &self.channel);
            push_text(&mut text, " (last: ");
            push_text(&mut text, &fault);
            push_text(&mut text, ")");
        }
        proof {
            assert(text@ =~= me.fault_text());
        }
        if self.mode != PlayMode::Probe {
            let event = PlayEvent {
                id: self.id,
                started: self.started,
                channel: self.channel,
                catchup: self.mode == PlayMode::CatchUp,
                total_ms: since(now, self.began) / 1000000,
                candidates_total: self.candidates.len(),
                succeeded: false,
                error: Some(fault),
                attempts: self.attempts,
            };
            proof {
                assert(event@ == me.event(me.attempts, Some(me.fault()), now));
            }
            log.record(event);
        }
        text
    }
}

/// An attempt lasts no longer than attempts may, and ends before the play's time does.
pub proof fn law_attempts_fit_the_budget(p: PlayView, now: u64)
    requires
        span(now, p.began) < p.budget,
    ensures
        p.next_timeout(now) <= p.per_attempt,
        span(now, p.began) + p.next_timeout(now) <= p.budget,
        p.per_attempt > 0 ==> p.next_timeout(now) > 0,
{
}

/// Every candidate that was tried has its attempt, in the order of the candidates.
pub open spec fn tells_all(p: PlayView) -> bool {
    &&& p.attempts.len() == p.tried
    &&& p.tried <= p.candidates.len()
    &&& forall|i: int|
        0 <= i < p.attempts.len() ==> (#[trigger] p.attempts[i]).url == p.candidates[i].url && p.attempts[i].host
            == p.candidates[i].host
}

/// A play that has told of all attempts has done so again after the next one, whatever comes
/// of it, and has gone on by one candidate.
pub proof fn law_log_tells_all_attempts(p: PlayView, q: PlayView, outcome: OutcomeView, now: u64)
    requires
        tells_all(p),
        p.tried < p.candidates.len(),
        q.tried == p.tried + 1,
        q.candidates == p.candidates,
        q.attempts == p.attempts,
    ensures
        tells_all(PlayView { attempts: q.attempts.push(q.attempt(outcome, now)), ..q }),
        q.current() == p.candidates[p.tried as int],
{
}

/// What fails in a play is one step deeper in cool-off for the next, up to the deepest.
pub proof fn law_failed_urls_sink(b: BlacklistView, url: Seq<char>, at: i128)
    requires
        state_of(b.urls, url).cool_off_step <= MAX_COOL_OFF_STEP,
    ensures
        state_of(after_failure(b, url, at).urls, url).cool_off_step == if state_of(b.urls, url).cool_off_step
            < MAX_COOL_OFF_STEP {
            state_of(b.urls, url).cool_off_step + 1
        } else {
            MAX_COOL_OFF_STEP as int
        },
{
}

/// A URL that worked is the one that last worked for the channel, and no other is.
pub proof fn law_played_url_is_known_good(b: BlacklistView, channel: Seq<char>, url: Seq<char>, at: i128, other: Seq<char>)
    ensures
        good_age(after_success(b, channel, url, at).good, channel, url, at) == Some(0u64),
        other != url ==> good_age(after_success(b, channel, url, at).good, channel, other, at) is None,
{
}

/// A probe looks for a URL for as long as two attempts may last, every other play for its budget.
pub proof fn law_budgets_are_kept(mode: PlayMode, config: ProxyConfig)
    requires
        2 * config.per_attempt_timeout_secs * 1000000000 <= u64::MAX,
        config.play_budget_secs * 1000000000 <= u64::MAX,
    ensures
        mode == PlayMode::Probe ==> play_budget(mode, config) == 2 * config.per_attempt_timeout_secs * 1000000000,
        mode != PlayMode::Probe ==> play_budget(mode, config) == config.play_budget_secs * 1000000000,
{
}

/// The log tells of an attempt at the candidate that was tried last: its host, its URL, how many
/// whole milliseconds it took, and what came of it.
pub proof fn law_attempts_are_told(p: PlayView, outcome: OutcomeView, now: u64)
    requires
        0 < p.tried <= p.candidates.len(),
        p.attempt_began <= now,
    ensures
        p.attempt(outcome, now).host == p.candidates[p.tried - 1].host,
        p.attempt(outcome, now).url == p.candidates[p.tried - 1].url,
        p.attempt(outcome, now).outcome == outcome,
        p.attempt(outcome, now).elapsed_ms * 1000000 <= now - p.attempt_began,
        now - p.attempt_began < (p.attempt(outcome, now).elapsed_ms + 1) * 1000000,
{
}

/// The log tells of a play: whose it was, when it started, how many whole milliseconds it took,
/// what was tried of how many, and that it succeeded where there is no error.
pub proof fn law_plays_are_told(p: PlayView, attempts: Seq<AttemptView>, error: Option<Seq<char>>, now: u64)
    requires
        p.began <= now,
        p.candidates.len() <= usize::MAX,
    ensures
        ({
            let e = p.event(attempts, error, now);
            &&& e.id == p.id
            &&& e.channel == p.channel
            &&& e.started == p.started
            &&& e.attempts == attempts
            &&& e.candidates_total == p.candidates.len()
            &&& e.error == error
            &&& e.succeeded <==> error is None
            &&& e.catchup <==> p.mode == PlayMode::CatchUp
            &&& e.total_ms * 1000000 <= now - p.began
            &&& now - p.began < (e.total_ms + 1) * 1000000
        }),
{
}

/// A play that failed is told by its last error, where there was one.
pub proof fn law_last_errors_are_told(p: PlayView, e: Seq<char>)
    requires
        p.last_err == Some(e),
    ensures
        p.mode == PlayMode::CatchUp ==> p.fault_text() == "catch-up upstream failed: "@ + e,
        p.mode == PlayMode::Live ==> p.fault_text() == "all "@ + decimal(p.tried) + "/"@ + decimal(p.candidates.len())
            + " candidates failed for "@ + p.channel + " (last: "@ + e + ")"@,
        p.mode == PlayMode::Audio ==> p.fault_text() == "all "@ + decimal(p.tried) + "/"@ + decimal(p.candidates.len())
            + " audio candidates failed for "@ + p.channel + " (last: "@ + e + ")"@,
{
}

} // verus!
