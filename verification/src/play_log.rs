//! The latest plays, for looking into what went wrong.
use std::collections::VecDeque;
use vstd::prelude::*;
use crate::text::{hex, hex_char, hex_string, opt_text};

verus! {

/// How many plays are kept.
pub const CAPACITY: usize = 50;

#[derive(Debug)]
pub enum AttemptOutcome {
    Played,
    Failed { reason: String },
    Timeout,
}

/// The contents of an `AttemptOutcome`.
pub enum OutcomeView {
    Played,
    Failed { reason: Seq<char> },
    Timeout,
}

impl View for AttemptOutcome {
    type V = OutcomeView;

    open spec fn view(&self) -> OutcomeView {
        match self {
            AttemptOutcome::Played => OutcomeView::Played,
            AttemptOutcome::Failed { reason } => OutcomeView::Failed { reason: reason@ },
            AttemptOutcome::Timeout => OutcomeView::Timeout,
        }
    }
}

impl Clone for AttemptOutcome {
    fn clone(&self) -> (r: Self)
        ensures
            r@ == self@,
    {
        match self {
            AttemptOutcome::Played => AttemptOutcome::Played,
            AttemptOutcome::Failed { reason } => AttemptOutcome::Failed { reason: reason.clone() },
            AttemptOutcome::Timeout => AttemptOutcome::Timeout,
        }
    }
}

/// One try at one URL.
#[derive(Debug)]
pub struct PlayAttempt {
    pub host: String,
    pub url: String,
    pub elapsed_ms: u64,
    pub outcome: AttemptOutcome,
}

/// The contents of a `PlayAttempt`.
pub struct AttemptView {
    pub host: Seq<char>,
    pub url: Seq<char>,
    pub elapsed_ms: u64,
    pub outcome: OutcomeView,
}

impl View for PlayAttempt {
    type V = AttemptView;

    open spec fn view(&self) -> AttemptView {
        AttemptView { host: self.host@, url: self.url@, elapsed_ms: self.elapsed_ms, outcome: self.outcome@ }
    }
}

impl Clone for PlayAttempt {
    fn clone(&self) -> (r: Self)
        ensures
            r@ == self@,
    {
        PlayAttempt {
            host: self.host.clone(),
            url: self.url.clone(),
            elapsed_ms: self.elapsed_ms,
            outcome: self.outcome.clone(),
        }
    }
}

/// The contents of each attempt.
pub open spec fn attempt_views(v: Seq<PlayAttempt>) -> Seq<AttemptView> {
    v.map_values(|a: PlayAttempt| a@)
}

/// A play and all that was tried for it.
#[derive(Debug)]
pub struct PlayEvent {
    pub id: String,
    /// In nanoseconds since the Unix epoch.
    pub started: i128,
    pub channel: String,
    pub catchup: bool,
    pub total_ms: u64,
    pub candidates_total: usize,
    pub succeeded: bool,
    pub error: Option<String>,
    pub attempts: Vec<PlayAttempt>,
}

/// The contents of a `PlayEvent`.
pub struct EventView {
    pub id: Seq<char>,
    pub started: i128,
    pub channel: Seq<char>,
    pub catchup: bool,
    pub total_ms: u64,
    pub candidates_total: usize,
    pub succeeded: bool,
    pub error: Option<Seq<char>>,
    pub attempts: Seq<AttemptView>,
}

impl View for PlayEvent {
    type V = EventView;

    open spec fn view(&self) -> EventView {
        EventView {
            id: self.id@,
            started: self.started,
            channel: self.channel@,
            catchup: self.catchup,
            total_ms: self.total_ms,
            candidates_total: self.candidates_total,
            succeeded: self.succeeded,
            error: opt_text(self.error),
            attempts: attempt_views(self.attempts@),
        }
    }
}

fn copy_attempts(v: &Vec<PlayAttempt>) -> (r: Vec<PlayAttempt>)
    ensures
        attempt_views(r@) == attempt_views(v@),
{
    let mut out: Vec<PlayAttempt> = Vec::new();
    let mut i: usize = 0;
    while i < v.len()
        invariant
            i <= v@.len(),
            attempt_views(out@) == attempt_views(v@).take(i as int),
        decreases v@.len() - i,
    {
        let ghost was = attempt_views(out@);
        let a = v[i].clone();
        out.push(a);
        proof {
            assert(attempt_views(out@) =~= was.push(a@));
            assert(attempt_views(out@) =~= attempt_views(v@).take(i + 1));
        }
        i = i + 1;
    }
    proof {
        assert(attempt_views(out@) =~= attempt_views(v@));
    }
    out
}

impl Clone for PlayEvent {
    fn clone(&self) -> (r: Self)
        ensures
            r@ == self@,
    {
        PlayEvent {
            id: self.id.clone(),
            started: self.started,
            channel: self.channel.clone(),
            catchup: self.catchup,
            total_ms: self.total_ms,
            candidates_total: self.candidates_total,
            succeeded: self.succeeded,
            error: self.error.clone(),
            attempts: copy_attempts(&self.attempts),
        }
    }
}

/// The contents of each event.
pub open spec fn event_views(v: Seq<PlayEvent>) -> Seq<EventView> {
    v.map_values(|e: PlayEvent| e@)
}

/// The latest plays, the oldest first, and a counter for their ids.
pub struct PlayLog {
    pub counter: u32,
    pub events: VecDeque<PlayEvent>,
}

impl View for PlayLog {
    type V = Seq<EventView>;

    open spec fn view(&self) -> Seq<EventView> {
        event_views(self.events@)
    }
}

/// A log with one more play; a full log loses its oldest.
pub open spec fn logged(s: Seq<EventView>, e: EventView) -> Seq<EventView> {
    if s.len() == CAPACITY {
        s.skip(1).push(e)
    } else {
        s.push(e)
    }
}

impl PlayLog {
    /// No more plays than there is room for.
    pub open spec fn wf(&self) -> bool {
        self.events@.len() <= CAPACITY
    }

    pub fn new() -> (r: Self)
        ensures
            r.wf(),
            r@ == Seq::<EventView>::empty(),
            r.counter == 0,
    {
        let r = PlayLog { counter: 0, events: VecDeque::new() };
        proof {
            assert(r@ =~= Seq::<EventView>::empty());
        }
        r
    }

    /// Six digits to base 16, which count up and begin again after the last.
    pub fn next_id(&mut self) -> (r: String)
        ensures
            r@ == hex((old(self).counter % 0x100_0000) as nat, 6),
            final(self).counter == (old(self).counter + 1) % 0x1_0000_0000,
            final(self)@ == old(self)@,
            final(self).wf() == old(self).wf(),
    {
        let n: u32 = self.counter;
        self.counter = n.wrapping_add(1);
        hex_string((n % 0x100_0000) as u64, 6)
    }

    pub fn record(&mut self, event: PlayEvent)
        requires
            old(self).wf(),
        ensures
            final(self).wf(),
            final(self)@ == logged(old(self)@, event@),
            final(self).counter == old(self).counter,
    {
        let ghost was = self.events@;
        if self.events.len() == CAPACITY {
            let _ = self.events.pop_front();
        }
        self.events.push_back(event);
        proof {
            assert(event_views(self.events@) =~= logged(event_views(was), event@));
        }
    }

    /// The plays, the newest first.
    pub fn snapshot(&self) -> (r: Vec<PlayEvent>)
        ensures
            event_views(r@) == self@.reverse(),
    {
        let mut out: Vec<PlayEvent> = Vec::new();
        let mut i: usize = self.events.len();
        while i > 0
            invariant
                i <= self.events@.len(),
                event_views(out@) == self@.reverse().take(self.events@.len() - i),
            decreases i,
        {
            let ghost was = event_views(out@);
            let e = self.events[i - 1].clone();
            out.push(e);
            proof {
                assert(event_views(out@) =~= was.push(e@));
                assert(event_views(out@) =~= self@.reverse().take(self.events@.len() - i + 1));
            }
            i = i - 1;
        }
        proof {
            assert(event_views(out@) =~= self@.reverse());
        }
        out
    }
}

/// The log ends with the play recorded last, and holds the latest plays before it.
pub proof fn law_log_keeps_the_latest(s: Seq<EventView>, e: EventView)
    requires
        s.len() <= CAPACITY,
    ensures
        logged(s, e).len() <= CAPACITY,
        logged(s, e).last() == e,
        forall|i: int|
            0 <= i < logged(s, e).len() - 1 ==> #[trigger] logged(s, e)[i] == s[i + s.len() + 1 - logged(s, e).len()],
{
}

/// Two ids differ where fewer than sixteen million lie between them.
pub proof fn law_ids_differ(a: nat, b: nat)
    requires
        a < b,
        b - a < 0x100_0000,
    ensures
        hex(a % 0x100_0000, 6) != hex(b % 0x100_0000, 6),
{
    let x = a % 0x100_0000;
    let y = b % 0x100_0000;
    assert(x != y);
    reveal_with_fuel(pow16, 7);
    if hex(x, 6) == hex(y, 6) {
        lemma_hex_injective(x, y, 6);
    }
}

/// Sixteen to the power of `n`.
spec fn pow16(n: nat) -> nat
    decreases n,
{
    if n == 0 {
        1
    } else {
        16 * pow16((n - 1) as nat)
    }
}

proof fn lemma_hex_injective(x: nat, y: nat, n: nat)
    requires
        x < pow16(n),
        y < pow16(n),
        hex(x, n) == hex(y, n),
    ensures
        x == y,
    decreases n,
{
    if n > 0 {
        let a = hex(x / 16, (n - 1) as nat);
        let b = hex(y / 16, (n - 1) as nat);
        assert(hex(x, n) == a.push(hex_char(x % 16)));
        assert(hex(y, n) == b.push(hex_char(y % 16)));
        assert(hex(x, n).last() == hex(y, n).last());
        assert(hex(x, n).drop_last() =~= a);
        assert(hex(y, n).drop_last() =~= b);
        lemma_hex_injective(x / 16, y / 16, (n - 1) as nat);
        assert(a.push(hex_char(x % 16)).last() == hex_char(x % 16));
        assert(b.push(hex_char(y % 16)).last() == hex_char(y % 16));
        assert(hex_char(x % 16) == hex_char(y % 16));
        assert(x % 16 == y % 16);
    }
}

/// A log holds the latest fifty plays.
pub proof fn law_log_holds_fifty(s: Seq<EventView>, e: EventView)
    requires
        s.len() <= 50,
    ensures
        s.len() < 50 ==> logged(s, e) == s.push(e),
        s.len() == 50 ==> logged(s, e) == s.skip(1).push(e),
{
}

} // verus!
