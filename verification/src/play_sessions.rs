//! Which URL each play got, so that what a client reports later falls on the right one.
use vstd::prelude::*;
use crate::clock::{since, span};
use crate::table::{Table, TextMap, kept, lemma_kept};
use crate::text::owned;

verus! {

/// Ten minutes.
pub const ENTRY_TTL_NANOS: u64 = 600000000000;

/// A minute.
pub const SWEEP_INTERVAL_NANOS: u64 = 60000000000;

/// What a play got.
#[derive(Debug)]
pub struct Session {
    pub upstream: String,
    pub channel_key: String,
    /// On a clock that does not go back, in nanoseconds.
    pub inserted: u64,
}

/// The contents of a `Session`.
pub struct SessionView {
    pub upstream: Seq<char>,
    pub channel_key: Seq<char>,
    pub inserted: u64,
}

impl View for Session {
    type V = SessionView;

    open spec fn view(&self) -> SessionView {
        SessionView { upstream: self.upstream@, channel_key: self.channel_key@, inserted: self.inserted }
    }
}

/// The plays, by the ids that clients gave them.
pub struct PlaySessions {
    pub by_pid: TextMap<Session>,
    pub last_sweep: Option<u64>,
}

impl View for PlaySessions {
    type V = Map<Seq<char>, SessionView>;

    open spec fn view(&self) -> Map<Seq<char>, SessionView> {
        self.by_pid@.map_values(|s: Session| s@)
    }
}

/// A session is not over yet.
pub open spec fn live(s: SessionView, now: u64) -> bool {
    span(now, s.inserted) <= ENTRY_TTL_NANOS
}

/// The sessions that are not over yet.
pub open spec fn swept(m: Map<Seq<char>, SessionView>, now: u64) -> Map<Seq<char>, SessionView> {
    m.restrict(m.dom().filter(|k: Seq<char>| live(m[k], now)))
}

/// What is found under an id.
pub open spec fn session_at(m: Map<Seq<char>, SessionView>, pid: Seq<char>, now: u64) -> Option<(Seq<char>, Seq<char>)> {
    if pid.len() > 0 && m.contains_key(pid) && live(m[pid], now) {
        Some((m[pid].upstream, m[pid].channel_key))
    } else {
        None
    }
}

/// It is time to sweep.
pub open spec fn sweep_due(last: Option<u64>, now: u64) -> bool {
    match last {
        Some(t) => span(now, t) >= SWEEP_INTERVAL_NANOS,
        None => true,
    }
}

/// The sessions and the time of the last sweep, after a play took note of its URL. An empty id
/// stands for none.
pub open spec fn noted(
    m: Map<Seq<char>, SessionView>,
    last: Option<u64>,
    pid: Seq<char>,
    s: SessionView,
) -> (Map<Seq<char>, SessionView>, Option<u64>) {
    if pid.len() == 0 {
        (m, last)
    } else if sweep_due(last, s.inserted) {
        (swept(m.insert(pid, s), s.inserted), Some(s.inserted))
    } else {
        (m.insert(pid, s), last)
    }
}

impl PlaySessions {
    pub open spec fn wf(&self) -> bool {
        self.by_pid.wf()
    }

    pub fn new() -> (r: Self)
        ensures
            r.wf(),
            r@ == Map::<Seq<char>, SessionView>::empty(),
            r.last_sweep is None,
    {
        let r = PlaySessions { by_pid: Table::new(), last_sweep: None };
        proof {
            assert(r@ =~= Map::<Seq<char>, SessionView>::empty());
        }
        r
    }

    /// Takes note of the URL that a play got. An empty id stands for none.
    pub fn note(&mut self, pid: &str, channel_key: &str, upstream: &str, now: u64)
        requires
            old(self).wf(),
        ensures
            final(self).wf(),
            (final(self)@, final(self).last_sweep) == noted(
                old(self)@,
                old(self).last_sweep,
                pid@,
                (SessionView { upstream: upstream@, channel_key: channel_key@, inserted: now }),
            ),
    {
        if pid.is_empty() {
            return;
        }
        let s = Session { upstream: owned(upstream), channel_key: owned(channel_key), inserted: now };
        self.by_pid.insert(owned(pid), s);
        proof {
            assert(self@ =~= old(self)@.insert(pid@, s@));
        }
        self.maybe_sweep(now);
    }

    fn maybe_sweep(&mut self, now: u64)
        requires
            old(self).wf(),
        ensures
            final(self).wf(),
            if sweep_due(old(self).last_sweep, now) {
                final(self)@ == swept(old(self)@, now) && final(self).last_sweep == Some(now)
            } else {
                final(self)@ == old(self)@ && final(self).last_sweep == old(self).last_sweep
            },
    {
        let due = match self.last_sweep {
            Some(t) => since(now, t) >= SWEEP_INTERVAL_NANOS,
            None => true,
        };
        if !due {
            return;
        }
        self.last_sweep = Some(now);
        let ghost src = self.by_pid.entries@;
        let ghost keep = |k: Seq<char>, s: Session| live(s@, now);
        let mut entries: Vec<(String, Session)> = Vec::new();
        std::mem::swap(&mut self.by_pid.entries, &mut entries);
        let mut left: Vec<(String, Session)> = Vec::new();
        for e in it: entries
            invariant
                it.seq() == src,
                keep == |k: Seq<char>, s: Session| live(s@, now),
                left@ == kept(src.take(it.index()), keep),
        {
            proof {
                let n = it.index();
                assert(src.take(n + 1).drop_last() =~= src.take(n));
                assert(src[n] == e);
            }
            if since(now, e.1.inserted) <= ENTRY_TTL_NANOS {
                left.push(e);
            }
        }
        proof {
            assert(src.take(src.len() as int) =~= src);
            lemma_kept(src, keep);
        }
        self.by_pid = Table { entries: left };
        proof {
            assert(self@ =~= swept(old(self)@, now));
        }
    }

    /// The URL that a play got, and its channel.
    pub fn lookup(&self, pid: &str, now: u64) -> (r: Option<(String, String)>)
        ensures
            match r {
                Some(p) => session_at(self@, pid@, now) == Some((p.0@, p.1@)),
                None => session_at(self@, pid@, now) is None,
            },
    {
        if pid.is_empty() {
            return None;
        }
        match self.by_pid.get(&owned(pid)) {
            Some(s) => if since(now, s.inserted) > ENTRY_TTL_NANOS {
                None
            } else {
                Some((s.upstream.clone(), s.channel_key.clone()))
            },
            None => None,
        }
    }
}

impl Default for PlaySessions {
    fn default() -> (r: Self)
        ensures
            r.wf(),
            r@ == Map::<Seq<char>, SessionView>::empty(),
            r.last_sweep is None,
    {
        PlaySessions::new()
    }
}

/// Sweeping is never seen: what is found later is the same without it.
pub proof fn law_sweep_is_invisible(m: Map<Seq<char>, SessionView>, pid: Seq<char>, now: u64, later: u64)
    requires
        now <= later,
    ensures
        session_at(swept(m, now), pid, later) == session_at(m, pid, later),
{
}

/// What was noted is found for ten minutes.
pub proof fn law_noted_is_found(
    m: Map<Seq<char>, SessionView>,
    last: Option<u64>,
    pid: Seq<char>,
    s: SessionView,
    later: u64,
)
    requires
        pid.len() > 0,
        s.inserted <= later,
    ensures
        session_at(noted(m, last, pid, s).0, pid, later) == if later - s.inserted <= ENTRY_TTL_NANOS {
            Some((s.upstream, s.channel_key))
        } else {
            None
        },
{
    law_sweep_is_invisible(m.insert(pid, s), pid, s.inserted, later);
}

/// A session is found for ten minutes, and under its own id only.
pub proof fn law_sessions_last_ten_minutes(m: Map<Seq<char>, SessionView>, pid: Seq<char>, now: u64)
    requires
        m.contains_key(pid),
        m[pid].inserted <= now,
        pid.len() > 0,
    ensures
        now - m[pid].inserted <= 10 * 60 * 1000000000 ==> session_at(m, pid, now) == Some(
            (m[pid].upstream, m[pid].channel_key),
        ),
        now - m[pid].inserted > 10 * 60 * 1000000000 ==> session_at(m, pid, now) is None,
        session_at(m.remove(pid), pid, now) is None,
{
}

/// A play that takes note of its URL leaves the others where they are, as long as they last.
pub proof fn law_sessions_do_not_meet(
    m: Map<Seq<char>, SessionView>,
    last: Option<u64>,
    pid: Seq<char>,
    s: SessionView,
    other: Seq<char>,
    later: u64,
)
    requires
        other != pid,
        s.inserted <= later,
    ensures
        session_at(noted(m, last, pid, s).0, other, later) == session_at(m, other, later),
{
    law_sweep_is_invisible(m.insert(pid, s), other, s.inserted, later);
}

} // verus!
