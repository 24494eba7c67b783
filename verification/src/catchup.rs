//! Requests for recordings.
use vstd::prelude::*;
use crate::blacklist::Blacklist;
use crate::candidates::{archive_candidate_hosts, archive_hosts};
use crate::canonical::{CanonicalChannel, CanonicalSource, best_archive, law_one_archive_is_best};
use crate::outside::{in_calendar, parse_rfc3339, rfc3339};
use crate::proxy::{CandView, Candidate, cand_views};
use crate::text::{chars_of, parse_i64, parse_u32, texts, to_i64, to_u32};
use crate::xtream::XtreamClient;

verus! {

/// What a request for a channel may say.
#[derive(Debug, Default)]
pub struct PlayParams {
    /// When the recording starts.
    pub at: Option<String>,
    /// How many seconds ago the recording starts.
    pub from: Option<String>,
    /// How many minutes of the recording are wanted.
    pub duration: Option<String>,
    /// A try whether the client can play at all.
    pub probe: bool,
    /// The id that the client gave the play.
    pub pid: Option<String>,
    /// What the client can play, with commas.
    pub caps: Option<String>,
    /// The URL to try first, in URL-safe base 64.
    pub force_url: Option<String>,
    /// The only stream to try, for a probe.
    pub probe_stream_id: Option<u64>,
}

/// A recording that is asked for.
#[derive(Debug, Clone, Copy, PartialEq, Eq, Structural)]
pub struct CatchupRequest {
    /// In nanoseconds since the Unix epoch.
    pub start: i128,
    pub explicit_duration_min: Option<u32>,
}

/// Why a request for a recording is refused.
#[derive(Debug, Clone, Copy, PartialEq, Eq, Structural)]
pub enum CatchupError {
    BothStarts,
    BadAt,
    BadFrom,
    NoStart,
    BadDuration,
    NotPast,
    NoArchive,
    OutsideWindow,
    NoHost,
}

impl CatchupError {
    pub fn message(&self) -> (r: &'static str)
        ensures
            r@ == match self {
                CatchupError::BothStarts => "use either at or from, not both"@,
                CatchupError::BadAt => "at must be RFC3339 with offset (e.g. 2026-05-12T20:00:00Z)"@,
                CatchupError::BadFrom => "from must be a non-negative integer (seconds)"@,
                CatchupError::NoStart => "duration requires at or from"@,
                CatchupError::BadDuration => "duration must be a positive integer (minutes)"@,
                CatchupError::NotPast => "at must be in the past"@,
                CatchupError::NoArchive => "channel does not support catch-up"@,
                CatchupError::OutsideWindow => "start time is outside the catch-up window"@,
                CatchupError::NoHost => "catch-up upstream failed: no alive host"@,
            },
    {
        match self {
            CatchupError::BothStarts => "use either at or from, not both",
            CatchupError::BadAt => "at must be RFC3339 with offset (e.g. 2026-05-12T20:00:00Z)",
            CatchupError::BadFrom => "from must be a non-negative integer (seconds)",
            CatchupError::NoStart => "duration requires at or from",
            CatchupError::BadDuration => "duration must be a positive integer (minutes)",
            CatchupError::NotPast => "at must be in the past",
            CatchupError::NoArchive => "channel does not support catch-up",
            CatchupError::OutsideWindow => "start time is outside the catch-up window",
            CatchupError::NoHost => "catch-up upstream failed: no alive host",
        }
    }

    /// The HTTP status.
    pub fn status(&self) -> (r: u16)
        ensures
            r == match self {
                CatchupError::NoArchive => 404u16,
                CatchupError::NoHost => 502u16,
                _ => 400u16,
            },
    {
        match self {
            CatchupError::NoArchive => 404,
            CatchupError::NoHost => 502,
            _ => 400,
        }
    }
}

/// The greatest and the least time that is dealt with, in nanoseconds: beyond all calendars,
/// and far from the bounds of the type.
pub open spec fn sane_time(t: int) -> bool {
    -1000000000000000000000000000000 <= t <= 1000000000000000000000000000000
}

/// A number of minutes above zero.
pub open spec fn minutes_of(s: Seq<char>) -> Option<u32> {
    match parse_u32(s) {
        Some(n) => if n > 0 {
            Some(n)
        } else {
            None
        },
        None => None,
    }
}

/// What the parameters ask for, where `at` was read as the time `read`.
pub open spec fn asked(p: PlayParams, read: Option<int>, now: int) -> Result<Option<(int, Option<u32>)>, CatchupError> {
    if p.at is None && p.from is None && p.duration is None {
        Ok(None)
    } else if p.at is Some && p.from is Some {
        Err(CatchupError::BothStarts)
    } else if p.at is None && p.from is None {
        Err(CatchupError::NoStart)
    } else if p.at is Some && read is None {
        Err(CatchupError::BadAt)
    } else if p.from is Some && !(parse_i64(p.from->0@) matches Some(n) && n >= 0) {
        Err(CatchupError::BadFrom)
    } else if p.duration is Some && minutes_of(p.duration->0@) is None {
        Err(CatchupError::BadDuration)
    } else {
        let start = if p.at is Some {
            read->0
        } else {
            now - parse_i64(p.from->0@)->0 * 1000000000
        };
        if start >= now {
            Err(CatchupError::NotPast)
        } else {
            Ok(
                Some(
                    (
                        start,
                        match p.duration {
                            Some(d) => minutes_of(d@),
                            None => None,
                        },
                    ),
                ),
            )
        }
    }
}

/// The contents of an answer.
pub open spec fn answer(r: Result<Option<CatchupRequest>, CatchupError>) -> Result<Option<(int, Option<u32>)>, CatchupError> {
    match r {
        Ok(Some(q)) => Ok(Some((q.start as int, q.explicit_duration_min))),
        Ok(None) => Ok(None),
        Err(e) => Err(e),
    }
}

/// What the parameters ask for, where `at` was read as the time `read`.
pub fn parse_catchup(p: &PlayParams, read: Option<i128>, now: i128) -> (r: Result<Option<CatchupRequest>, CatchupError>)
    requires
        sane_time(now as int),
    ensures
        answer(r) == asked(
            *p,
            match read {
                Some(t) => Some(t as int),
                None => None,
            },
            now as int,
        ),
{
    if p.at.is_none() && p.from.is_none() && p.duration.is_none() {
        return Ok(None);
    }
    if p.at.is_some() && p.from.is_some() {
        return Err(CatchupError::BothStarts);
    }
    let start: i128 = if p.at.is_some() {
        match read {
            Some(t) => t,
            None => {
                return Err(CatchupError::BadAt);
            },
        }
    } else {
        match &p.from {
            Some(s) => match to_i64(&chars_of(s)) {
                Some(n) => {
                    if n < 0 {
                        return Err(CatchupError::BadFrom);
                    }
                    now - n as i128 * 1000000000
                },
                None => {
                    return Err(CatchupError::BadFrom);
                },
            },
            None => {
                return Err(CatchupError::NoStart);
            },
        }
    };
    let explicit_duration_min: Option<u32> = match &p.duration {
        Some(s) => match to_u32(&chars_of(s)) {
            Some(n) => {
                if n == 0 {
                    return Err(CatchupError::BadDuration);
                }
                Some(n)
            },
            None => {
                return Err(CatchupError::BadDuration);
            },
        },
        None => None,
    };
    if start >= now {
        return Err(CatchupError::NotPast);
    }
    Ok(Some(CatchupRequest { start, explicit_duration_min }))
}

/// What `at` says, as the time of day goes in Greenwich.
pub open spec fn read_at(at: Option<String>) -> Option<int> {
    match at {
        Some(s) => match rfc3339(s@) {
            Some(t) => Some(t.0),
            None => None,
        },
        None => None,
    }
}

/// The recording that the parameters ask for; none for what is broadcast now.
pub fn parse_catchup_params_at(p: &PlayParams, now: i128) -> (r: Result<Option<CatchupRequest>, CatchupError>)
    requires
        sane_time(now as int),
    ensures
        answer(r) == asked(*p, read_at(p.at), now as int),
{
    let read: Option<i128> = match &p.at {
        Some(s) => match parse_rfc3339(s) {
            Some(t) => Some(t.0),
            None => None,
        },
        None => None,
    };
    parse_catchup(p, read, now)
}

// --- Which recording --------------------------------------------------------------------------

/// The days for which a source keeps recordings.
pub open spec fn kept_days(s: CanonicalSource) -> u32 {
    match s.tv_archive_duration {
        Some(d) => d,
        None => 1,
    }
}

/// The start lies within the days for which recordings are kept, on a calendar.
pub open spec fn in_window(start: int, days: nat, now: int) -> bool {
    start >= now - days * 86400 * 1000000000 && in_calendar(start / 1000000000)
}

/// How many minutes are asked for: as many as the request says, or all up to now and five
/// more, but no more than are kept and one at least.
pub open spec fn minutes(req: CatchupRequest, days: nat, now: int) -> int {
    let wanted = match req.explicit_duration_min {
        Some(d) => d as int,
        None => (if now > req.start {
            (now - req.start) / 60000000000
        } else {
            0
        }) + 5,
    };
    let most = days * 24 * 60;
    let m = if wanted < most {
        wanted
    } else {
        most as int
    };
    (if m < 1 {
        1
    } else {
        m
    }) % 0x1_0000_0000
}

/// The recording on each host.
pub open spec fn recordings(
    client: XtreamClient,
    s: CanonicalSource,
    req: CatchupRequest,
    hosts: Seq<Seq<char>>,
    now: int,
) -> Seq<CandView> {
    hosts.map_values(
        |h: Seq<char>|
            CandView {
                url: client.archive_url(
                    h,
                    s.stream_id as nat,
                    minutes(req, kept_days(s) as nat, now) as nat,
                    req.start as int / 1000000000,
                ),
                host: h,
                stream_id: s.stream_id,
            },
    )
}

/// What comes of a request for a recording of a source, where these hosts can be asked.
pub open spec fn planned(
    client: XtreamClient,
    s: CanonicalSource,
    req: CatchupRequest,
    hosts: Seq<Seq<char>>,
    now: int,
) -> Result<Seq<CandView>, CatchupError> {
    if !in_window(req.start as int, kept_days(s) as nat, now) {
        Err(CatchupError::OutsideWindow)
    } else if hosts.len() == 0 {
        Err(CatchupError::NoHost)
    } else {
        Ok(recordings(client, s, req, hosts, now))
    }
}

/// The contents of a plan.
pub open spec fn plan_view(r: Result<Vec<Candidate>, CatchupError>) -> Result<Seq<CandView>, CatchupError> {
    match r {
        Ok(v) => Ok(cand_views(v@)),
        Err(e) => Err(e),
    }
}

fn count_minutes(req: CatchupRequest, days: u32, now: i128) -> (r: u32)
    requires
        sane_time(now as int),
        sane_time(req.start as int),
    ensures
        r == minutes(req, days as nat, now as int),
{
    let wanted: i128 = match req.explicit_duration_min {
        Some(d) => d as i128,
        None => (if now > req.start {
            (now - req.start) / 60000000000
        } else {
            0
        }) + 5,
    };
    let most: i128 = days as i128 * 24 * 60;
    let m: i128 = if wanted < most {
        wanted
    } else {
        most
    };
    let m: i128 = if m < 1 {
        1
    } else {
        m
    };
    (m % 0x1_0000_0000) as u32
}

fn whole_secs(t: i128) -> (r: i128)
    ensures
        r == t as int / 1000000000,
{
    if t >= 0 {
        t / 1000000000
    } else {
        let below: i128 = -(t + 1);
        -(below / 1000000000) - 1
    }
}

/// The URLs to try for a recording.
pub fn plan_catchup(
    client: &XtreamClient,
    channel: &CanonicalChannel,
    req: CatchupRequest,
    alive: &[String],
    blacklist: &Blacklist,
    now: i128,
) -> (r: Result<Vec<Candidate>, CatchupError>)
    requires
        blacklist.wf(),
        sane_time(now as int),
    ensures
        r == Err::<Vec<Candidate>, CatchupError>(CatchupError::NoArchive) || exists|i: int| #[trigger]
            best_archive(channel.sources@, i) && ({
                let s = channel.sources@[i];
                let hosts = archive_hosts(texts(alive@), *blacklist, now);
                if !in_window(req.start as int, kept_days(s) as nat, now as int) {
                    r == Err::<Vec<Candidate>, CatchupError>(CatchupError::OutsideWindow)
                } else if hosts.len() == 0 {
                    r == Err::<Vec<Candidate>, CatchupError>(CatchupError::NoHost)
                } else {
                    r matches Ok(v) && cand_views(v@) == recordings(*client, s, req, hosts, now as int)
                }
            }),
        r == Err::<Vec<Candidate>, CatchupError>(CatchupError::NoArchive) <==> forall|i: int|
            0 <= i < channel.sources@.len() ==> !(#[trigger] channel.sources@[i]).tv_archive,
        forall|i: int| #[trigger]
            best_archive(channel.sources@, i) ==> plan_view(r) == planned(
                *client,
                channel.sources@[i],
                req,
                archive_hosts(texts(alive@), *blacklist, now),
                now as int,
            ),
{
    let source = match channel.pick_archive_source() {
        Some(s) => s,
        None => {
            return Err(CatchupError::NoArchive);
        },
    };
    let ghost i = choose|i: int| #[trigger] best_archive(channel.sources@, i) && channel.sources@[i] == *source;
    proof {
        assert forall|j: int| #[trigger] best_archive(channel.sources@, j) implies j == i by {
            law_one_archive_is_best(channel.sources@, i, j);
        }
    }
    let days: u32 = match source.tv_archive_duration {
        Some(d) => d,
        None => 1,
    };
    let earliest: i128 = now - days as i128 * 86400 * 1000000000;
    let secs: i128 = whole_secs(req.start);
    if req.start < earliest || secs < -377705116800 || secs > 253402300799 {
        return Err(CatchupError::OutsideWindow);
    }
    let hosts = archive_candidate_hosts(alive, blacklist, now);
    let ghost names = texts(hosts@);
    if hosts.len() == 0 {
        return Err(CatchupError::NoHost);
    }
    let count = count_minutes(req, days, now);
    let mut out: Vec<Candidate> = Vec::new();
    let mut k: usize = 0;
    while k < hosts.len()
        invariant
            k <= hosts@.len(),
            names == texts(hosts@),
            in_calendar(secs as int),
            secs == req.start as int / 1000000000,
            count == minutes(req, kept_days(*source) as nat, now as int),
            cand_views(out@) == recordings(*client, *source, req, names, now as int).take(k as int),
        decreases hosts@.len() - k,
    {
        let ghost was = cand_views(out@);
        let c = Candidate {
            url: client.timeshift_url(&hosts[k], source.stream_id, count, secs as i64),
            host: hosts[k].clone(),
            stream_id: source.stream_id,
        };
        let ghost v = c@;
        out.push(c);
        proof {
            assert(names[k as int] == hosts@[k as int]@);
            assert(cand_views(out@) =~= was.push(v));
            assert(cand_views(out@) =~= recordings(*client, *source, req, names, now as int).take(k + 1));
        }
        k = k + 1;
    }
    proof {
        assert(cand_views(out@) =~= recordings(*client, *source, req, names, now as int));
        assert(best_archive(channel.sources@, i));
        assert(channel.sources@[i].tv_archive);
    }
    Ok(out)
}

/// What is asked for has begun.
pub proof fn law_recordings_lie_in_the_past(p: PlayParams, read: Option<int>, now: int)
    ensures
        asked(p, read, now) matches Ok(Some(q)) ==> q.0 < now && (q.1 matches Some(m) ==> m > 0),
{
}

/// A source that keeps `d` days plays what began within them, and nothing older; one that does not
/// say how many keeps one. What it plays is asked of every host in turn, by its own stream.
pub proof fn law_sources_play_what_they_keep(
    client: XtreamClient,
    s: CanonicalSource,
    req: CatchupRequest,
    hosts: Seq<Seq<char>>,
    now: int,
    d: u32,
)
    requires
        s.tv_archive_duration == Some(d) || (s.tv_archive_duration is None && d == 1),
        -377705116800000000000 <= req.start < 253402300800000000000,
    ensures
        req.start < now - d * 86400000000000 ==> planned(client, s, req, hosts, now) == Err::<Seq<CandView>, CatchupError>(
            CatchupError::OutsideWindow,
        ),
        req.start >= now - d * 86400000000000 && hosts.len() == 0 ==> planned(client, s, req, hosts, now) == Err::<
            Seq<CandView>,
            CatchupError,
        >(CatchupError::NoHost),
        req.start >= now - d * 86400000000000 && hosts.len() > 0 ==> (planned(client, s, req, hosts, now) matches Ok(v)
            && v.len() == hosts.len() && forall|k: int|
            0 <= k < hosts.len() ==> (#[trigger] v[k]).host == hosts[k] && v[k].stream_id == s.stream_id),
{
    assert(d as nat * 86400 * 1000000000 == d * 86400000000000);
}

/// A source that keeps more days plays all that one with fewer plays.
pub proof fn law_more_days_play_more(
    client: XtreamClient,
    s: CanonicalSource,
    t: CanonicalSource,
    req: CatchupRequest,
    hosts: Seq<Seq<char>>,
    now: int,
)
    requires
        s.tv_archive_duration matches Some(d) && t.tv_archive_duration matches Some(e) && d <= e,
        planned(client, s, req, hosts, now) is Ok,
    ensures
        planned(client, t, req, hosts, now) is Ok,
{
}

/// The URL of a recording says how long it is: as long as was asked for, or up to now and five
/// minutes more, but not longer than the days that are kept; and from when it is.
pub proof fn law_recordings_are_as_long_as_asked(
    client: XtreamClient,
    s: CanonicalSource,
    req: CatchupRequest,
    hosts: Seq<Seq<char>>,
    now: int,
    d: u32,
    m: nat,
    k: int,
)
    requires
        s.tv_archive_duration == Some(d),
        0 < m <= d * 1440,
        0 <= k < hosts.len(),
        req.explicit_duration_min == Some(m as u32) || (req.explicit_duration_min is None && req.start <= now && m == (now
            - req.start) / 60000000000 + 5),
        m <= u32::MAX,
    ensures
        planned(client, s, req, hosts, now) matches Ok(v) ==> v[k].url == client.archive_url(
            hosts[k],
            s.stream_id as nat,
            m,
            req.start as int / 1000000000,
        ),
{
    assert(d as nat * 24 * 60 == d * 1440);
    assert(minutes(req, d as nat, now) == m);
}

/// A start is given by its time, or by the seconds since; without either there is no recording.
pub proof fn law_starts_are_told(p: PlayParams, read: Option<int>, now: int, t: int, n: i64)
    requires
        p.duration is None,
    ensures
        p.at is None && (p.from matches Some(s) && parse_i64(s@) == Some(n)) && n > 0 ==> asked(p, read, now) == Ok::<
            Option<(int, Option<u32>)>,
            CatchupError,
        >(Some((now - n * 1000000000, None))),
        p.at is Some && p.from is None && read == Some(t) && t < now ==> asked(p, read, now) == Ok::<
            Option<(int, Option<u32>)>,
            CatchupError,
        >(Some((t, None))),
        p.at is Some && p.from is None && read == Some(t) && t >= now ==> asked(p, read, now) is Err,
        p.at is Some && p.from is Some ==> asked(p, read, now) is Err,
        p.at is None && p.from is None ==> asked(p, read, now) == Ok::<Option<(int, Option<u32>)>, CatchupError>(None),
{
}

/// The minutes that a request names are those that it gets, where it names a start.
pub proof fn law_durations_are_told(p: PlayParams, read: Option<int>, now: int, m: u32)
    requires
        p.duration matches Some(s) && parse_u32(s@) == Some(m),
    ensures
        asked(p, read, now) matches Ok(q) ==> m > 0 && (q matches Some(q) && q.1 == Some(m)),
        m == 0 ==> asked(p, read, now) is Err,
        p.at is None && p.from is None ==> asked(p, read, now) is Err,
{
}

/// What is asked of the hosts is no longer than what they keep.
pub proof fn law_recordings_are_kept(req: CatchupRequest, days: nat, now: int)
    requires
        0 < days <= u32::MAX,
        now - req.start < 0x1_0000_0000 * 60000000000 - 300000000000,
    ensures
        1 <= minutes(req, days, now) <= days * 24 * 60,
        req.explicit_duration_min matches Some(d) ==> 0 < d <= days * 24 * 60 ==> minutes(req, days, now) == d,
{
}

/// What is wrong with a request is told: two starts, none, a start or a length that cannot be read, or
/// a start that is not in the past.
pub proof fn law_faults_are_told(p: PlayParams, read: Option<int>, now: int)
    ensures
        p.at is Some && p.from is Some ==> asked(p, read, now) == Err::<Option<(int, Option<u32>)>, CatchupError>(
            CatchupError::BothStarts,
        ),
        p.at is None && p.from is None && p.duration is Some ==> asked(p, read, now) == Err::<
            Option<(int, Option<u32>)>,
            CatchupError,
        >(CatchupError::NoStart),
        p.at is Some && p.from is None && read is None ==> asked(p, read, now) == Err::<Option<(int, Option<u32>)>, CatchupError>(
            CatchupError::BadAt,
        ),
        p.at is None && (p.from matches Some(s) && parse_i64(s@) is None) ==> asked(p, read, now) == Err::<
            Option<(int, Option<u32>)>,
            CatchupError,
        >(CatchupError::BadFrom),
        p.at is Some && p.from is None && read is Some && (p.duration matches Some(s) && parse_u32(s@) is None) ==> asked(
            p,
            read,
            now,
        ) == Err::<Option<(int, Option<u32>)>, CatchupError>(CatchupError::BadDuration),
        p.at is Some && p.from is None && p.duration is None && (read matches Some(t) && t >= now) ==> asked(p, read, now)
            == Err::<Option<(int, Option<u32>)>, CatchupError>(CatchupError::NotPast),
{
}

} // verus!
