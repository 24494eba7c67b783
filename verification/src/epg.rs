//! Programme guides: where they come from, which is the best, and how long it is kept.
use dashmap::DashMap;
use vstd::prelude::*;
use crate::clock::{difference, distance, greater, span};
use crate::config::EpgConfig;
use crate::json::Json;
use crate::order::{Ranked, insert_by, lemma_ranked_by_map, lemma_ranked_contains, lex_lt, own_rank, ranked_by, sort_ranked};
use crate::outside::{drop_guide, get_guide, guide_keys, guides_in, in_calendar, lowercase, no_guides, parse_utc};
use crate::outside::{put_guide, read_utc_fields, to_lowercase, utc_by_format, utc_fields};
use crate::text::{decimal, has_text, opt_text, owned, push_decimal, push_text, replace_text, replaced_text, str_eq};
use crate::text::{lemma_find_from, occurs_at, texts, trim, trim_str};
use crate::xtream::{EpgProgram, Moment, ProgramView, plain_format, program_views};

verus! {

/// Where a guide came from, and how much it holds.
#[derive(Debug)]
pub struct EpgMeta {
    pub program_count: usize,
    pub span_hours: i64,
    pub source_stream_id: Option<u64>,
    pub source_host: Option<String>,
}

/// The contents of an `EpgMeta`.
pub struct MetaView {
    pub program_count: usize,
    pub span_hours: i64,
    pub source_stream_id: Option<u64>,
    pub source_host: Option<Seq<char>>,
}

impl View for EpgMeta {
    type V = MetaView;

    open spec fn view(&self) -> MetaView {
        MetaView {
            program_count: self.program_count,
            span_hours: self.span_hours,
            source_stream_id: self.source_stream_id,
            source_host: opt_text(self.source_host),
        }
    }
}

/// A guide as it is kept.
#[derive(Debug)]
pub struct CachedEpg {
    pub programs: Vec<EpgProgram>,
    /// On a clock that does not go back, in nanoseconds.
    pub fetched_at: u64,
    pub meta: EpgMeta,
}

/// The contents of a `CachedEpg`.
pub struct CachedView {
    pub programs: Seq<ProgramView>,
    pub fetched_at: u64,
    pub meta: MetaView,
}

impl View for CachedEpg {
    type V = CachedView;

    open spec fn view(&self) -> CachedView {
        CachedView { programs: program_views(self.programs@), fetched_at: self.fetched_at, meta: self.meta@ }
    }
}

fn copy_programs(v: &Vec<EpgProgram>) -> (r: Vec<EpgProgram>)
    ensures
        program_views(r@) == program_views(v@),
{
    let mut out: Vec<EpgProgram> = Vec::new();
    let mut i: usize = 0;
    while i < v.len()
        invariant
            i <= v@.len(),
            program_views(out@) == program_views(v@).take(i as int),
        decreases v@.len() - i,
    {
        let ghost was = program_views(out@);
        let p = v[i].clone();
        out.push(p);
        proof {
            assert(program_views(out@) =~= was.push(p@));
            assert(program_views(out@) =~= program_views(v@).take(i + 1));
        }
        i = i + 1;
    }
    proof {
        assert(program_views(out@) =~= program_views(v@));
    }
    out
}

impl Clone for CachedEpg {
    fn clone(&self) -> (r: Self)
        ensures
            r@ == self@,
    {
        CachedEpg {
            programs: copy_programs(&self.programs),
            fetched_at: self.fetched_at,
            meta: EpgMeta {
                program_count: self.meta.program_count,
                span_hours: self.meta.span_hours,
                source_stream_id: self.meta.source_stream_id,
                source_host: self.meta.source_host.clone(),
            },
        }
    }
}

/// A guide that holds nothing.
pub open spec fn nothing_cached(now: u64) -> CachedView {
    CachedView {
        programs: Seq::empty(),
        fetched_at: now,
        meta: MetaView { program_count: 0, span_hours: 0, source_stream_id: None, source_host: None },
    }
}

pub fn empty_cached(now: u64) -> (r: CachedEpg)
    ensures
        r@ == nothing_cached(now),
{
    let r = CachedEpg {
        programs: Vec::new(),
        fetched_at: now,
        meta: EpgMeta { program_count: 0, span_hours: 0, source_stream_id: None, source_host: None },
    };
    proof {
        assert(r@.programs =~= Seq::<ProgramView>::empty());
    }
    r
}

// --- Where a guide comes from ----------------------------------------------------------

/// A place to fetch a guide from.
#[derive(Debug)]
pub enum EpgCandidate {
    Xtream {
        stream_id: u64,
        host: String,
        /// The higher come first.
        priority: u8,
    },
    /// A day of a radio station of RTP.
    RtpRadio { code: u32, date: String },
}

/// The contents of an `EpgCandidate`.
pub enum EpgCandView {
    Xtream { stream_id: u64, host: Seq<char>, priority: u8 },
    RtpRadio { code: u32, date: Seq<char> },
}

impl View for EpgCandidate {
    type V = EpgCandView;

    open spec fn view(&self) -> EpgCandView {
        match self {
            EpgCandidate::Xtream { stream_id, host, priority } => EpgCandView::Xtream {
                stream_id: *stream_id,
                host: host@,
                priority: *priority,
            },
            EpgCandidate::RtpRadio { code, date } => EpgCandView::RtpRadio { code: *code, date: date@ },
        }
    }
}

/// The contents of each candidate.
pub open spec fn epg_views(v: Seq<EpgCandidate>) -> Seq<EpgCandView> {
    v.map_values(|c: EpgCandidate| c@)
}

impl EpgCandidate {
    pub open spec fn weight(self) -> u8 {
        match self {
            EpgCandidate::Xtream { priority, .. } => priority,
            EpgCandidate::RtpRadio { .. } => 0,
        }
    }

    pub fn priority(&self) -> (r: u8)
        ensures
            r == self.weight(),
    {
        match self {
            EpgCandidate::Xtream { priority, .. } => *priority,
            EpgCandidate::RtpRadio { .. } => 0,
        }
    }

    pub open spec fn log_id(self) -> u64 {
        match self {
            EpgCandidate::Xtream { stream_id, .. } => stream_id,
            EpgCandidate::RtpRadio { code, .. } => code as u64,
        }
    }

    pub fn stream_id_for_log(&self) -> (r: u64)
        ensures
            r == self.log_id(),
    {
        match self {
            EpgCandidate::Xtream { stream_id, .. } => *stream_id,
            EpgCandidate::RtpRadio { code, .. } => *code as u64,
        }
    }

    pub open spec fn log_host(self) -> Seq<char> {
        match self {
            EpgCandidate::Xtream { host, .. } => host@,
            EpgCandidate::RtpRadio { code, date } => "rtp-radio/"@ + decimal(code as nat) + "/"@ + date@,
        }
    }

    pub fn host_for_log(&self) -> (r: String)
        ensures
            r@ == self.log_host(),
    {
        match self {
            EpgCandidate::Xtream { host, .. } => host.clone(),
            EpgCandidate::RtpRadio { code, date } => {
                let mut s = owned("rtp-radio/");
                push_decimal(&mut s, *code as u64);
                push_text(&mut s, "/");
                push_text(&mut s, date);
                s
            },
        }
    }
}

impl Ranked for EpgCandidate {
    /// By descending priority.
    open spec fn rank(&self) -> Seq<int> {
        seq![-(self.weight() as int)]
    }

    fn precedes(&self, other: &Self) -> (r: bool) {
        proof {
            reveal_with_fuel(lex_lt, 2);
        }
        self.priority() > other.priority()
    }
}

/// A whole number in decimal digits, with a minus sign where it is negative.
pub open spec fn signed_decimal(n: int) -> Seq<char> {
    if n < 0 {
        "-"@ + decimal((-n) as nat)
    } else {
        decimal(n as nat)
    }
}

/// Day, month and year without leading zeros, of a number of seconds since the Unix epoch.
pub open spec fn rtp_date(secs: int) -> Seq<char> {
    let (y, mo, d, h, mi) = utc_fields(secs);
    decimal(d as nat) + "-"@ + decimal(mo as nat) + "-"@ + signed_decimal(y)
}

/// The day in UTC as RTP wants it, such as `14-5-2026`.
pub fn format_rtp_date(secs: i64) -> (r: String)
    requires
        in_calendar(secs as int),
    ensures
        r@ == rtp_date(secs as int),
{
    let (y, mo, d, h, mi) = read_utc_fields(secs);
    let mut s = String::new();
    push_decimal(&mut s, d as u64);
    push_text(&mut s, "-");
    push_decimal(&mut s, mo as u64);
    push_text(&mut s, "-");
    if y < 0 {
        push_text(&mut s, "-");
        push_decimal(&mut s, (-y) as u64);
    } else {
        push_decimal(&mut s, y as u64);
    }
    proof {
        assert(s@ =~= rtp_date(secs as int));
    }
    s
}

/// The URL of a day of a radio station of RTP.
pub open spec fn rtp_url(code: nat, date: Seq<char>) -> Seq<char> {
    "https://www.rtp.pt/EPG/json/rtp-channels-page/list-grid/radio/"@ + decimal(code) + "/"@ + date + "/lis"@
}

/// How many entries of the short guide are asked for.
pub const SHORT_GUIDE_LIMIT: u32 = 8;

/// What the whole guide of a stream comes to, by what was had of it; none where the short guide
/// is to be asked for.
pub fn after_full_guide(got: Option<Vec<EpgProgram>>) -> (r: Option<Vec<EpgProgram>>)
    ensures
        r matches Some(v) ==> got == Some(v) && v@.len() > 0,
        r is None <==> (got matches Some(v) ==> v@.len() == 0),
{
    match got {
        Some(v) => if v.len() > 0 {
            Some(v)
        } else {
            None
        },
        None => None,
    }
}

pub fn rtp_radio_url(code: u32, date: &str) -> (r: String)
    ensures
        r@ == rtp_url(code as nat, date@),
{
    let mut s = owned("https://www.rtp.pt/EPG/json/rtp-channels-page/list-grid/radio/");
    push_decimal(&mut s, code as u64);
    push_text(&mut s, "/");
    push_text(&mut s, date);
    push_text(&mut s, "/lis");
    s
}

// --- RTP's answers -----------------------------------------------------------------------

/// The names of characters, and the characters. The ampersand comes last, so that what it
/// uncovers is not read again.
pub open spec fn entity_texts() -> Seq<(Seq<char>, Seq<char>)> {
    seq![
        ("&ccedil;"@, "ç"@),
        ("&Ccedil;"@, "Ç"@),
        ("&atilde;"@, "ã"@),
        ("&Atilde;"@, "Ã"@),
        ("&otilde;"@, "õ"@),
        ("&Otilde;"@, "Õ"@),
        ("&aacute;"@, "á"@),
        ("&eacute;"@, "é"@),
        ("&iacute;"@, "í"@),
        ("&oacute;"@, "ó"@),
        ("&uacute;"@, "ú"@),
        ("&Aacute;"@, "Á"@),
        ("&Eacute;"@, "É"@),
        ("&Iacute;"@, "Í"@),
        ("&Oacute;"@, "Ó"@),
        ("&Uacute;"@, "Ú"@),
        ("&amp;"@, "&"@),
    ]
}

/// The text with the first `n` names replaced, one after the other.
pub open spec fn entities_replaced(s: Seq<char>, n: nat) -> Seq<char>
    decreases n,
{
    if n == 0 {
        s
    } else {
        replaced_text(entities_replaced(s, (n - 1) as nat), entity_texts()[n - 1].0, entity_texts()[n - 1].1)
    }
}

fn entity_list() -> (r: Vec<(&'static str, &'static str)>)
    ensures
        r@.len() == entity_texts().len(),
        forall|i: int| 0 <= i < r@.len() ==> ((#[trigger] r@[i]).0@, r@[i].1@) == entity_texts()[i],
        forall|i: int| 0 <= i < r@.len() ==> (#[trigger] r@[i]).0@.len() > 0,
{
    proof {
        reveal_strlit("&ccedil;");
        reveal_strlit("&Ccedil;");
        reveal_strlit("&atilde;");
        reveal_strlit("&Atilde;");
        reveal_strlit("&otilde;");
        reveal_strlit("&Otilde;");
        reveal_strlit("&aacute;");
        reveal_strlit("&eacute;");
        reveal_strlit("&iacute;");
        reveal_strlit("&oacute;");
        reveal_strlit("&uacute;");
        reveal_strlit("&Aacute;");
        reveal_strlit("&Eacute;");
        reveal_strlit("&Iacute;");
        reveal_strlit("&Oacute;");
        reveal_strlit("&Uacute;");
        reveal_strlit("&amp;");
    }
    vec![
        ("&ccedil;", "ç"),
        ("&Ccedil;", "Ç"),
        ("&atilde;", "ã"),
        ("&Atilde;", "Ã"),
        ("&otilde;", "õ"),
        ("&Otilde;", "Õ"),
        ("&aacute;", "á"),
        ("&eacute;", "é"),
        ("&iacute;", "í"),
        ("&oacute;", "ó"),
        ("&uacute;", "ú"),
        ("&Aacute;", "Á"),
        ("&Eacute;", "É"),
        ("&Iacute;", "Í"),
        ("&Oacute;", "Ó"),
        ("&Uacute;", "Ú"),
        ("&amp;", "&"),
    ]
}

/// The text with the names of characters replaced by the characters.
pub fn rtp_decode(s: &str) -> (r: String)
    ensures
        r@ == entities_replaced(s@, 17),
{
    let list = entity_list();
    let mut out = owned(s);
    let mut i: usize = 0;
    while i < list.len()
        invariant
            i <= 17,
            list@.len() == 17,
            forall|i: int| 0 <= i < list@.len() ==> ((#[trigger] list@[i]).0@, list@[i].1@) == entity_texts()[i],
            forall|i: int| 0 <= i < list@.len() ==> (#[trigger] list@[i]).0@.len() > 0,
            out@ == entities_replaced(s@, i as nat),
        decreases 17 - i,
    {
        let (name, c) = list[i];
        proof {
            assert((list@[i as int].0@, list@[i as int].1@) == entity_texts()[i as int]);
        }
        out = replace_text(&out, name, c);
        i = i + 1;
    }
    out
}

/// A time of the clocks of Lisbon, given as nanoseconds since the Unix epoch as if they were
/// those of UTC: from April to October they are an hour ahead.
pub open spec fn lisbon_time(nanos: int) -> Option<Moment> {
    let secs = nanos / 1000000000;
    if !in_calendar(secs) {
        None
    } else {
        let month = utc_fields(secs).1;
        Some(
            Moment {
                nanos: (nanos - if 4 <= month <= 10 {
                    3600000000000int
                } else {
                    0
                }) as i128,
                offset: 0,
            },
        )
    }
}

pub fn from_lisbon(nanos: i128) -> (r: Option<Moment>)
    ensures
        r == lisbon_time(nanos as int),
{
    if nanos < -377705116800000000000 || nanos > 253402300799999999999 {
        return None;
    }
    let secs: i64 = if nanos >= 0 {
        (nanos / 1000000000) as i64
    } else {
        -(((-nanos) + 999999999) / 1000000000) as i64
    };
    let (y, month, d, h, mi) = read_utc_fields(secs);
    let ahead: i128 = if 4 <= month && month <= 10 {
        3600000000000
    } else {
        0
    };
    Some(Moment { nanos: nanos - ahead, offset: 0 })
}

/// The time that a text of RTP's gives.
pub open spec fn rtp_time(s: Option<Seq<char>>) -> Option<Moment> {
    match s {
        Some(t) => match utc_by_format(t, plain_format()) {
            Some(n) => lisbon_time(n),
            None => None,
        },
        None => None,
    }
}

pub fn parse_rtp_date_str(s: Option<&String>) -> (r: Option<Moment>)
    ensures
        r == rtp_time(
            match s {
                Some(t) => Some(t@),
                None => None,
            },
        ),
{
    match s {
        Some(t) => match parse_utc(t, "[year]-[month]-[day] [hour]:[minute]:[second]") {
            Some(n) => from_lisbon(n),
            None => None,
        },
        None => None,
    }
}

/// The entries of one part of the day.
pub open spec fn bucket(result: Json, name: Seq<char>) -> Seq<Json> {
    match result.field(name) {
        Some(Json::List(l)) => l@,
        _ => Seq::empty(),
    }
}

/// All entries of a day, in the order of the day.
pub open spec fn rtp_entries(v: Json) -> Seq<Json> {
    match v.field("result"@) {
        Some(Json::Object(o)) => bucket(Json::Object(o), "morning"@) + bucket(Json::Object(o), "afternoon"@) + bucket(
            Json::Object(o),
            "evening"@,
        ),
        _ => Seq::empty(),
    }
}

/// The text in a member; empty where there is none.
pub open spec fn text_or_empty(e: Json, key: Seq<char>) -> Seq<char> {
    match e.field_text(key) {
        Some(s) => s,
        None => Seq::empty(),
    }
}

/// The programmes of the entries that have a time, without ends.
pub open spec fn rtp_programs(s: Seq<Json>) -> Seq<ProgramView>
    decreases s.len(),
{
    if s.len() == 0 {
        Seq::empty()
    } else {
        let before = rtp_programs(s.drop_last());
        match rtp_time(s.last().field_text("date"@)) {
            Some(start) => before.push(
                ProgramView {
                    title: entities_replaced(text_or_empty(s.last(), "name"@), 17),
                    description: entities_replaced(text_or_empty(s.last(), "description"@), 17),
                    start: Some(start),
                    end: None,
                    has_archive: false,
                },
            ),
            None => before,
        }
    }
}

/// Each programme ends where the next starts; the last stays open.
pub open spec fn linked(s: Seq<ProgramView>) -> Seq<ProgramView> {
    Seq::new(
        s.len(),
        |i: int|
            if i + 1 < s.len() {
                ProgramView { end: s[i + 1].start, ..s[i] }
            } else {
                s[i]
            },
    )
}

fn decode_member(e: &Json, key: &str) -> (r: String)
    ensures
        r@ == entities_replaced(text_or_empty(*e, key@), 17),
{
    match e.get_text(key) {
        Some(s) => rtp_decode(s),
        None => {
            let none = String::new();
            proof {
                assert(none@ =~= Seq::<char>::empty());
            }
            rtp_decode(&none)
        },
    }
}

fn add_bucket(out: &mut Vec<EpgProgram>, result: &Json, name: &str, Ghost(seen): Ghost<Seq<Json>>)
    requires
        program_views(old(out)@) == rtp_programs(seen),
    ensures
        program_views(final(out)@) == rtp_programs(seen + bucket(*result, name@)),
{
    match result.get(name) {
        Some(Json::List(l)) => {
            let mut i: usize = 0;
            proof {
                assert(seen + l@.take(0) =~= seen);
            }
            while i < l.len()
                invariant
                    i <= l@.len(),
                    program_views(out@) == rtp_programs(seen + l@.take(i as int)),
                decreases l@.len() - i,
            {
                let e = &l[i];
                let ghost was = program_views(out@);
                proof {
                    let t = seen + l@.take(i + 1);
                    assert(t.drop_last() =~= seen + l@.take(i as int));
                    assert(t.last() == *e);
                }
                if let Some(start) = parse_rtp_date_str(e.get_text("date")) {
                    let p = EpgProgram {
                        title: decode_member(e, "name"),
                        description: decode_member(e, "description"),
                        start: Some(start),
                        end: None,
                        has_archive: false,
                    };
                    out.push(p);
                    proof {
                        assert(program_views(out@) =~= was.push(p@));
                    }
                }
                i = i + 1;
            }
            proof {
                assert(l@.take(i as int) =~= l@);
            }
        },
        _ => {
            proof {
                assert(seen + bucket(*result, name@) =~= seen);
            }
        },
    }
}

/// The programmes of a day.
pub fn parse_rtp_radio_response(v: &Json) -> (r: Vec<EpgProgram>)
    ensures
        program_views(r@) == linked(rtp_programs(rtp_entries(*v))),
{
    let mut out: Vec<EpgProgram> = Vec::new();
    proof {
        assert(program_views(out@) =~= rtp_programs(Seq::<Json>::empty()));
    }
    match v.get("result") {
        Some(result) => match result {
            Json::Object(o) => {
                let ghost a = Seq::<Json>::empty();
                let ghost b = a + bucket(*result, "morning"@);
                let ghost c = b + bucket(*result, "afternoon"@);
                add_bucket(&mut out, result, "morning", Ghost(a));
                add_bucket(&mut out, result, "afternoon", Ghost(b));
                add_bucket(&mut out, result, "evening", Ghost(c));
                proof {
                    assert(c + bucket(*result, "evening"@) =~= rtp_entries(*v));
                }
            },
            _ => {},
        },
        None => {},
    }
    let ghost open_ended = program_views(out@);
    let mut i: usize = 0;
    while i < out.len()
        invariant
            i <= out@.len(),
            out@.len() == open_ended.len(),
            forall|j: int| 0 <= j < i ==> (#[trigger] out@[j])@ == linked(open_ended)[j],
            forall|j: int| i <= j < out@.len() ==> (#[trigger] out@[j])@ == open_ended[j],
        decreases out@.len() - i,
    {
        if i + 1 < out.len() {
            let next = out[i + 1].start;
            proof {
                assert(out@[i + 1]@ == open_ended[i + 1]);
                assert(out@[i as int]@ == open_ended[i as int]);
            }
            out[i].end = next;
        } else {
            proof {
                assert(out@[i as int]@ == open_ended[i as int]);
            }
        }
        i = i + 1;
    }
    proof {
        assert(program_views(out@) =~= linked(open_ended));
    }
    out
}

// --- Which guide is the best ---------------------------------------------------------------

/// Programmes and hours from which on a guide is good enough.
pub const GOOD_ENOUGH_PROGRAMS: usize = 20;

pub const GOOD_ENOUGH_SPAN_HOURS: i64 = 24;

/// The number, or the greatest that there is.
pub open spec fn capped(n: int) -> i64 {
    if n > i64::MAX {
        i64::MAX
    } else {
        n as i64
    }
}

/// The earliest and the latest start.
pub open spec fn start_bounds(s: Seq<ProgramView>) -> Option<(i128, i128)>
    decreases s.len(),
{
    if s.len() == 0 {
        None
    } else {
        let before = start_bounds(s.drop_last());
        match s.last().start {
            Some(m) => match before {
                Some((lo, hi)) => Some(
                    (
                        if m.nanos < lo {
                            m.nanos
                        } else {
                            lo
                        },
                        if m.nanos > hi {
                            m.nanos
                        } else {
                            hi
                        },
                    ),
                ),
                None => Some((m.nanos, m.nanos)),
            },
            None => before,
        }
    }
}

/// The whole hours from the earliest start to the latest.
pub open spec fn span_hours(s: Seq<ProgramView>) -> i64 {
    match start_bounds(s) {
        Some((lo, hi)) => capped((hi - lo) / 3600000000000),
        None => 0,
    }
}

/// How good a guide is: a point for each programme and two for each hour.
pub open spec fn epg_score(s: Seq<ProgramView>) -> i64 {
    capped(s.len() + 2 * span_hours(s))
}

proof fn lemma_start_bounds(s: Seq<ProgramView>)
    ensures
        start_bounds(s) matches Some((lo, hi)) ==> lo <= hi,
    decreases s.len(),
{
    if s.len() > 0 {
        lemma_start_bounds(s.drop_last());
    }
}

/// Score, whole hours from the earliest start to the latest, and number of programmes.
pub fn score_epg(programs: &[EpgProgram]) -> (r: (i64, i64, usize))
    ensures
        r.0 == epg_score(program_views(programs@)),
        r.1 == span_hours(program_views(programs@)),
        r.2 == programs@.len(),
{
    let ghost views = program_views(programs@);
    let mut bounds: Option<(i128, i128)> = None;
    let mut i: usize = 0;
    while i < programs.len()
        invariant
            i <= programs@.len(),
            views == program_views(programs@),
            bounds == start_bounds(views.take(i as int)),
        decreases programs@.len() - i,
    {
        proof {
            assert(views.take(i + 1).drop_last() =~= views.take(i as int));
            assert(views.take(i + 1).last() == programs@[i as int]@);
        }
        if let Some(m) = programs[i].start {
            bounds = match bounds {
                Some((lo, hi)) => Some(
                    (
                        if m.nanos < lo {
                            m.nanos
                        } else {
                            lo
                        },
                        if m.nanos > hi {
                            m.nanos
                        } else {
                            hi
                        },
                    ),
                ),
                None => Some((m.nanos, m.nanos)),
            };
        }
        i = i + 1;
    }
    proof {
        assert(views.take(i as int) =~= views);
        lemma_start_bounds(views);
    }
    let hours: i64 = match bounds {
        Some((lo, hi)) => {
            let h: u128 = distance(hi, lo) / 3600000000000;
            if h > i64::MAX as u128 {
                i64::MAX
            } else {
                h as i64
            }
        },
        None => 0,
    };
    let total: i128 = programs.len() as i128 + 2 * (hours as i128);
    let score: i64 = if total > i64::MAX as i128 {
        i64::MAX
    } else {
        total as i64
    };
    (score, hours, programs.len())
}

/// The best guide so far.
pub struct WalkOutcome {
    pub programs: Vec<EpgProgram>,
    pub program_count: usize,
    pub span_hours: i64,
    pub stream_id: Option<u64>,
    pub host: Option<String>,
}

/// The contents of a `WalkOutcome`.
pub struct OutcomeView {
    pub programs: Seq<ProgramView>,
    pub program_count: usize,
    pub span_hours: i64,
    pub stream_id: Option<u64>,
    pub host: Option<Seq<char>>,
}

impl View for WalkOutcome {
    type V = OutcomeView;

    open spec fn view(&self) -> OutcomeView {
        OutcomeView {
            programs: program_views(self.programs@),
            program_count: self.program_count,
            span_hours: self.span_hours,
            stream_id: self.stream_id,
            host: opt_text(self.host),
        }
    }
}

/// No guide.
pub open spec fn no_outcome() -> OutcomeView {
    OutcomeView { programs: Seq::empty(), program_count: 0, span_hours: 0, stream_id: None, host: None }
}

/// A walk over all places to fetch a guide from, whose answers come in any order.
pub struct EpgWalk {
    pub best: WalkOutcome,
    pub best_score: i64,
    pub best_priority: u8,
    /// How many places with a priority have not answered yet.
    pub priority_remaining: usize,
}

/// How many places have a priority.
pub open spec fn with_priority(s: Seq<EpgCandidate>) -> nat
    decreases s.len(),
{
    if s.len() == 0 {
        0
    } else {
        with_priority(s.drop_last()) + if s.last().weight() > 0 {
            1nat
        } else {
            0
        }
    }
}

/// An answer is better: its place has the higher priority, or the same and a higher score.
pub open spec fn better(priority: u8, score: i64, best_priority: u8, best_score: i64) -> bool {
    priority > best_priority || (priority == best_priority && score > best_score)
}

/// The walk can end: no place with a priority is still to answer or one has been chosen, and
/// the best guide is good enough.
pub open spec fn walk_done(w: EpgWalk) -> bool {
    (w.best_priority > 0 || w.priority_remaining == 0) && w.best.program_count >= GOOD_ENOUGH_PROGRAMS && w.best.span_hours
        >= GOOD_ENOUGH_SPAN_HOURS
}

impl EpgWalk {
    /// Starts a walk. Gives back the places in the order in which to ask them: those with the
    /// higher priority first.
    pub fn start(candidates: Vec<EpgCandidate>) -> (r: (EpgWalk, Vec<EpgCandidate>))
        ensures
            r.1@ == ranked_by(candidates@, own_rank()),
            r.0.best@ == no_outcome(),
            r.0.best_score == 0,
            r.0.best_priority == 0,
            r.0.priority_remaining == with_priority(candidates@),
    {
        let mut n: usize = 0;
        let mut i: usize = 0;
        while i < candidates.len()
            invariant
                i <= candidates@.len(),
                n <= i,
                n == with_priority(candidates@.take(i as int)),
            decreases candidates@.len() - i,
        {
            proof {
                assert(candidates@.take(i + 1).drop_last() =~= candidates@.take(i as int));
            }
            if candidates[i].priority() > 0 {
                n = n + 1;
            }
            i = i + 1;
        }
        proof {
            assert(candidates@.take(i as int) =~= candidates@);
        }
        let best = WalkOutcome { programs: Vec::new(), program_count: 0, span_hours: 0, stream_id: None, host: None };
        proof {
            assert(best@.programs =~= Seq::<ProgramView>::empty());
        }
        (EpgWalk { best, best_score: 0, best_priority: 0, priority_remaining: n }, sort_ranked(candidates))
    }

    /// Takes an answer. Gives back whether the walk can end.
    pub fn arrived(&mut self, cand: &EpgCandidate, programs: Vec<EpgProgram>) -> (r: bool)
        ensures
            ({
                let score = epg_score(program_views(programs@));
                let prefer = better(cand.weight(), score, old(self).best_priority, old(self).best_score);
                &&& final(self).priority_remaining == if cand.weight() > 0 && old(self).priority_remaining > 0 {
                    (old(self).priority_remaining - 1) as usize
                } else {
                    old(self).priority_remaining
                }
                &&& final(self).best_score == if prefer {
                    score
                } else {
                    old(self).best_score
                }
                &&& final(self).best_priority == if prefer {
                    cand.weight()
                } else {
                    old(self).best_priority
                }
                &&& final(self).best@ == if prefer {
                    OutcomeView {
                        programs: program_views(programs@),
                        program_count: programs@.len() as usize,
                        span_hours: span_hours(program_views(programs@)),
                        stream_id: Some(cand.log_id()),
                        host: Some(cand.log_host()),
                    }
                } else {
                    old(self).best@
                }
            }),
            r == walk_done(*final(self)),
    {
        let p = cand.priority();
        if p > 0 && self.priority_remaining > 0 {
            self.priority_remaining = self.priority_remaining - 1;
        }
        let (score, hours, count) = score_epg(&programs);
        if p > self.best_priority || (p == self.best_priority && score > self.best_score) {
            self.best_score = score;
            self.best_priority = p;
            self.best = WalkOutcome {
                programs,
                program_count: count,
                span_hours: hours,
                stream_id: Some(cand.stream_id_for_log()),
                host: Some(cand.host_for_log()),
            };
        }
        (self.best_priority > 0 || self.priority_remaining == 0) && self.best.program_count >= GOOD_ENOUGH_PROGRAMS
            && self.best.span_hours >= GOOD_ENOUGH_SPAN_HOURS
    }
}

/// While a place with a priority is still to answer, a walk ends only with the guide of
/// another such place.
pub proof fn law_priority_is_waited_for(w: EpgWalk)
    requires
        walk_done(w),
        w.priority_remaining > 0,
    ensures
        w.best_priority > 0,
{
}

// --- Doubles -----------------------------------------------------------------------------

/// Minutes within which programmes of one title are one.
pub const TWIN_MINUTES: u128 = 30;

/// The programme has a start and an end.
pub open spec fn is_dated(p: ProgramView) -> bool {
    p.start is Some && p.end is Some
}

/// The programmes that have a start and an end.
pub open spec fn dated(s: Seq<ProgramView>) -> Seq<ProgramView>
    decreases s.len(),
{
    if s.len() == 0 {
        Seq::empty()
    } else if is_dated(s.last()) {
        dated(s.drop_last()).push(s.last())
    } else {
        dated(s.drop_last())
    }
}

/// By start.
pub open spec fn start_rank() -> spec_fn(ProgramView) -> Seq<int> {
    |p: ProgramView| seq![start_nanos(p)]
}

/// When the programme starts; the first moment of all where that is open.
pub open spec fn start_nanos(p: ProgramView) -> int {
    match p.start {
        Some(m) => m.nanos as int,
        None => i128::MIN as int,
    }
}

/// How long the programme is, in nanoseconds.
pub open spec fn length_nanos(p: ProgramView) -> int {
    p.end->0.nanos - p.start->0.nanos
}

/// The whole minutes between two starts.
pub open spec fn minutes_apart(a: ProgramView, b: ProgramView) -> int {
    let d = a.start->0.nanos - b.start->0.nanos;
    (if d < 0 {
        -d
    } else {
        d
    }) / 60000000000
}

/// What titles are compared by.
pub open spec fn title_key(p: ProgramView) -> Seq<char> {
    lowercase(trim(p.title))
}

/// The programme, going back from position `j`, that has the same title, up to the first
/// that starts more than half an hour away.
pub open spec fn twin(kept: Seq<ProgramView>, p: ProgramView, j: int) -> Option<int>
    decreases j + 1,
{
    if j < 0 || minutes_apart(p, kept[j]) > TWIN_MINUTES {
        None
    } else if title_key(kept[j]) == title_key(p) {
        Some(j)
    } else {
        twin(kept, p, j - 1)
    }
}

/// The programmes with one more, of two doubles the longer.
pub open spec fn merged(kept: Seq<ProgramView>, p: ProgramView) -> Seq<ProgramView> {
    match twin(kept, p, kept.len() - 1) {
        Some(j) => if length_nanos(p) > length_nanos(kept[j]) {
            kept.update(j, p)
        } else {
            kept
        },
        None => kept.push(p),
    }
}

/// The programmes one after the other, without doubles.
pub open spec fn folded(s: Seq<ProgramView>) -> Seq<ProgramView>
    decreases s.len(),
{
    if s.len() == 0 {
        Seq::empty()
    } else {
        merged(folded(s.drop_last()), s.last())
    }
}

/// The programmes that have a start and an end, in the order of their starts, without
/// doubles.
pub open spec fn deduped(s: Seq<ProgramView>) -> Seq<ProgramView> {
    folded(ranked_by(dated(s), start_rank()))
}

impl Ranked for EpgProgram {
    open spec fn rank(&self) -> Seq<int> {
        seq![start_nanos(self@)]
    }

    fn precedes(&self, other: &Self) -> (r: bool) {
        proof {
            reveal_with_fuel(lex_lt, 2);
        }
        let a: i128 = match self.start {
            Some(m) => m.nanos,
            None => i128::MIN,
        };
        let b: i128 = match other.start {
            Some(m) => m.nanos,
            None => i128::MIN,
        };
        a < b
    }
}

proof fn lemma_dated(s: Seq<ProgramView>)
    ensures
        forall|i: int| 0 <= i < dated(s).len() ==> is_dated(#[trigger] dated(s)[i]) && s.contains(dated(s)[i]),
    decreases s.len(),
{
    if s.len() > 0 {
        let t = s.drop_last();
        lemma_dated(t);
        assert forall|i: int| 0 <= i < dated(s).len() implies is_dated(#[trigger] dated(s)[i]) && s.contains(dated(s)[i]) by {
            if i < dated(t).len() {
                assert(dated(s)[i] == dated(t)[i]);
                let k = choose|k: int| 0 <= k < t.len() && t[k] == dated(t)[i];
                assert(s[k] == t[k]);
            } else {
                assert(s[s.len() - 1] == dated(s)[i]);
            }
        }
    }
}

proof fn lemma_twin(kept: Seq<ProgramView>, p: ProgramView, j: int)
    requires
        j < kept.len(),
    ensures
        twin(kept, p, j) matches Some(k) ==> 0 <= k <= j,
    decreases j + 1,
{
    if j >= 0 {
        lemma_twin(kept, p, j - 1);
    }
}

proof fn lemma_folded(s: Seq<ProgramView>)
    ensures
        forall|i: int| 0 <= i < folded(s).len() ==> s.contains(#[trigger] folded(s)[i]),
    decreases s.len(),
{
    if s.len() > 0 {
        let t = s.drop_last();
        lemma_folded(t);
        lemma_twin(folded(t), s.last(), folded(t).len() - 1);
        assert forall|i: int| 0 <= i < folded(s).len() implies s.contains(#[trigger] folded(s)[i]) by {
            if i < folded(t).len() && folded(s)[i] == folded(t)[i] {
                let k = choose|k: int| 0 <= k < t.len() && t[k] == folded(t)[i];
                assert(s[k] == t[k]);
            } else {
                assert(s[s.len() - 1] == folded(s)[i]);
            }
        }
    }
}

/// What is left without doubles are programmes of those given, and all have a start and an
/// end.
pub proof fn law_dedupe_only_drops(s: Seq<ProgramView>)
    ensures
        forall|i: int| 0 <= i < deduped(s).len() ==> is_dated(#[trigger] deduped(s)[i]) && s.contains(deduped(s)[i]),
{
    let d = dated(s);
    let r = ranked_by(d, start_rank());
    lemma_dated(s);
    lemma_folded(r);
    assert forall|i: int| 0 <= i < deduped(s).len() implies is_dated(#[trigger] deduped(s)[i]) && s.contains(deduped(s)[i]) by {
        let p = deduped(s)[i];
        lemma_ranked_contains(d, start_rank(), p);
        let k = choose|k: int| 0 <= k < d.len() && d[k] == p;
        assert(d[k] == p);
    }
}

/// A title once is a title once: of programmes that all start far apart, none is dropped.
pub proof fn law_dedupe_keeps_the_distinct(s: Seq<ProgramView>)
    requires
        forall|i: int, j: int|
            #![trigger s[i], s[j]]
            0 <= i < j < s.len() ==> title_key(s[i]) != title_key(s[j]) || minutes_apart(s[j], s[i]) > TWIN_MINUTES,
    ensures
        folded(s) == s,
    decreases s.len(),
{
    if s.len() > 0 {
        let t = s.drop_last();
        let p = s.last();
        assert forall|i: int, j: int| #![trigger t[i], t[j]] 0 <= i < j < t.len() implies title_key(t[i]) != title_key(t[j])
            || minutes_apart(t[j], t[i]) > TWIN_MINUTES by {
            assert(t[i] == s[i] && t[j] == s[j]);
        }
        law_dedupe_keeps_the_distinct(t);
        assert forall|i: int| 0 <= i < t.len() implies title_key(#[trigger] t[i]) != title_key(p) || minutes_apart(p, t[i])
            > TWIN_MINUTES by {
            assert(t[i] == s[i] && p == s[s.len() - 1]);
        }
        lemma_no_twin(t, p, t.len() - 1);
        assert(s =~= t.push(p));
    } else {
        assert(folded(s) =~= s);
    }
}

proof fn lemma_no_twin(t: Seq<ProgramView>, p: ProgramView, j: int)
    requires
        j < t.len(),
        forall|i: int|
            0 <= i < t.len() ==> title_key(#[trigger] t[i]) != title_key(p) || minutes_apart(p, t[i]) > TWIN_MINUTES,
    ensures
        twin(t, p, j) is None,
    decreases j + 1,
{
    if j >= 0 {
        assert(title_key(t[j]) != title_key(p) || minutes_apart(p, t[j]) > TWIN_MINUTES);
        lemma_no_twin(t, p, j - 1);
    }
}

fn same_title(a: &EpgProgram, key: &str) -> (r: bool)
    ensures
        r == (title_key(a@) == key@),
{
    let other = to_lowercase(&trim_str(&a.title));
    str_eq(&other, key)
}

fn merge_program(kept: &mut Vec<EpgProgram>, p: EpgProgram)
    requires
        is_dated(p@),
        forall|i: int| 0 <= i < old(kept)@.len() ==> is_dated((#[trigger] old(kept)@[i])@),
    ensures
        program_views(final(kept)@) == merged(program_views(old(kept)@), p@),
        forall|i: int| 0 <= i < final(kept)@.len() ==> is_dated((#[trigger] final(kept)@[i])@),
{
    let ghost views = program_views(kept@);
    let key = to_lowercase(&trim_str(&p.title));
    let (start, end) = match (p.start, p.end) {
        (Some(a), Some(b)) => (a, b),
        _ => {
            return;
        },
    };
    let mut j: usize = kept.len();
    while j > 0
        invariant
            j <= kept@.len(),
            kept@ == old(kept)@,
            views == program_views(kept@),
            key@ == title_key(p@),
            p@.start == Some(start),
            p@.end == Some(end),
            forall|i: int| 0 <= i < kept@.len() ==> is_dated((#[trigger] kept@[i])@),
            twin(views, p@, views.len() - 1) == twin(views, p@, j - 1),
        ensures
            twin(views, p@, views.len() - 1) is None,
        decreases j,
    {
        let k = &kept[j - 1];
        proof {
            assert(views[j - 1] == k@);
            assert(is_dated(k@));
        }
        let (ks, ke) = match (k.start, k.end) {
            (Some(a), Some(b)) => (a, b),
            _ => {
                return;
            },
        };
        let gap = difference(start.nanos, ks.nanos);
        if gap.1 / 60000000000 > TWIN_MINUTES {
            break;
        }
        if same_title(k, &key) {
            if greater(difference(end.nanos, start.nanos), difference(ke.nanos, ks.nanos)) {
                let ghost all = kept@;
                kept.set(j - 1, p);
                proof {
                    assert(program_views(kept@) =~= views.update(j - 1, p@));
                }
            }
            return;
        }
        j = j - 1;
    }
    kept.push(p);
    proof {
        assert(program_views(kept@) =~= views.push(p@));
    }
}

/// The programmes that have a start and an end, in the order of their starts, without
/// doubles.
pub fn dedupe_programs(programs: Vec<EpgProgram>) -> (r: Vec<EpgProgram>)
    ensures
        program_views(r@) == deduped(program_views(programs@)),
{
    let ghost all = program_views(programs@);
    let ghost src = programs@;
    let ghost f = |p: EpgProgram| p@;
    let mut list: Vec<EpgProgram> = Vec::new();
    proof {
        assert(program_views(list@) =~= dated(all.take(0)));
    }
    for p in it: programs
        invariant
            it.seq() == src,
            all == program_views(src),
            program_views(list@) == dated(all.take(it.index())),
    {
        let ghost k = it.index();
        let ghost was = program_views(list@);
        proof {
            assert(src[k] == p);
            assert(all.take(k + 1).drop_last() =~= all.take(k));
            assert(all.take(k + 1).last() == p@);
        }
        if p.start.is_some() && p.end.is_some() {
            list.push(p);
            proof {
                assert(program_views(list@) =~= was.push(p@));
            }
        }
    }
    let ghost chosen = list@;
    let sorted = sort_ranked(list);
    let ghost s = sorted@;
    proof {
        assert(all.take(all.len() as int) =~= all);
        lemma_ranked_by_map(chosen, f, own_rank(), start_rank());
        assert(program_views(s) =~= ranked_by(dated(all), start_rank()));
        lemma_dated(all);
        assert forall|i: int| 0 <= i < s.len() implies is_dated((#[trigger] s[i])@) by {
            lemma_ranked_contains(chosen, own_rank(), s[i]);
            assert(s.contains(s[i]));
            let k = choose|k: int| 0 <= k < chosen.len() && chosen[k] == s[i];
            assert(dated(all)[k] == chosen[k]@);
        }
    }
    let mut kept: Vec<EpgProgram> = Vec::new();
    proof {
        assert(program_views(kept@) =~= folded(program_views(s).take(0)));
    }
    for p in it: sorted
        invariant
            it.seq() == s,
            forall|i: int| 0 <= i < s.len() ==> is_dated((#[trigger] s[i])@),
            forall|i: int| 0 <= i < kept@.len() ==> is_dated((#[trigger] kept@[i])@),
            program_views(kept@) == folded(program_views(s).take(it.index())),
    {
        proof {
            let k = it.index();
            let v = program_views(s);
            assert(s[k] == p);
            assert(v.take(k + 1).drop_last() =~= v.take(k));
            assert(v.take(k + 1).last() == p@);
        }
        merge_program(&mut kept, p);
    }
    proof {
        assert(program_views(s).take(s.len() as int) =~= program_views(s));
    }
    kept
}

// --- The cache -----------------------------------------------------------------------------

/// Guides by channel key.
pub struct GuideMap {
    map: DashMap<String, CachedEpg>,
}

impl View for GuideMap {
    type V = Map<Seq<char>, CachedView>;

    closed spec fn view(&self) -> Map<Seq<char>, CachedView> {
        guides_in(self.map)
    }
}

impl GuideMap {
    pub fn new() -> (r: Self)
        ensures
            r@ == Map::<Seq<char>, CachedView>::empty(),
    {
        let r = GuideMap { map: no_guides() };
        proof {
            assert(r@ =~= Map::<Seq<char>, CachedView>::empty());
        }
        r
    }

    pub fn get(&self, key: &str) -> (r: Option<CachedEpg>)
        ensures
            match r {
                Some(e) => self@.contains_key(key@) && self@[key@] == e@,
                None => !self@.contains_key(key@),
            },
    {
        get_guide(&self.map, key)
    }

    pub fn insert(&mut self, key: String, e: CachedEpg)
        ensures
            final(self)@ == old(self)@.insert(key@, e@),
    {
        put_guide(&mut self.map, key, e);
    }

    pub fn remove(&mut self, key: &str)
        ensures
            final(self)@ == old(self)@.remove(key@),
    {
        drop_guide(&mut self.map, key);
    }

    /// Each key once, in no particular order.
    pub fn keys(&self) -> (r: Vec<String>)
        ensures
            texts(r@).no_duplicates(),
            forall|k: Seq<char>| #[trigger] texts(r@).contains(k) == self@.contains_key(k),
    {
        guide_keys(&self.map)
    }
}

/// The guides that were fetched, and the channels for which one is being fetched.
pub struct EpgState {
    pub cache: GuideMap,
    pub inflight: Vec<String>,
    pub config: EpgConfig,
}

/// What to do for a channel whose guide is asked for.
pub enum EpgStep {
    /// Here it is.
    Cached(CachedEpg),
    /// It is being fetched: wait, and then ask again.
    Wait,
    /// Fetch it.
    Fetch,
}

/// A guide that is not too old.
pub open spec fn fresh_guide(m: Map<Seq<char>, CachedView>, ttl_secs: u64, key: Seq<char>, now: u64) -> Option<CachedView> {
    if m.contains_key(key) && span(now, m[key].fetched_at) <= ttl_secs * 1000000000 {
        Some(m[key])
    } else {
        None
    }
}

/// What is kept of a walk's outcome.
pub open spec fn guide_of(o: OutcomeView, now: u64) -> CachedView {
    CachedView {
        programs: deduped(o.programs),
        fetched_at: now,
        meta: MetaView {
            program_count: o.program_count,
            span_hours: o.span_hours,
            source_stream_id: o.stream_id,
            source_host: o.host,
        },
    }
}

impl View for EpgState {
    type V = Map<Seq<char>, CachedView>;

    open spec fn view(&self) -> Map<Seq<char>, CachedView> {
        self.cache@
    }
}

impl EpgState {
    pub fn new(config: EpgConfig) -> (r: Self)
        ensures
            r@ == Map::<Seq<char>, CachedView>::empty(),
            r.inflight@.len() == 0,
            r.config == config,
    {
        let r = EpgState { cache: GuideMap::new(), inflight: Vec::new(), config };
        proof {
            assert(r@ =~= Map::<Seq<char>, CachedView>::empty());
        }
        r
    }

    /// The guide of a channel, if there is one that is not too old.
    pub fn get_fresh(&self, key: &str, now: u64) -> (r: Option<CachedEpg>)
        ensures
            match r {
                Some(e) => fresh_guide(self@, self.config.ttl_secs, key@, now) == Some(e@),
                None => fresh_guide(self@, self.config.ttl_secs, key@, now) is None,
            },
    {
        match self.cache.get(key) {
            Some(e) => {
                let age: u64 = if now >= e.fetched_at {
                    now - e.fetched_at
                } else {
                    0
                };
                if age as u128 > self.config.ttl_secs as u128 * 1000000000 {
                    None
                } else {
                    Some(e)
                }
            },
            None => None,
        }
    }

    pub fn invalidate(&mut self, key: &str)
        ensures
            final(self)@ == old(self)@.remove(key@),
            final(self).inflight == old(self).inflight,
            final(self).config == old(self).config,
    {
        self.cache.remove(key);
    }

    /// The channels that have a guide, each once, in no particular order.
    pub fn known_keys(&self) -> (r: Vec<String>)
        ensures
            texts(r@).no_duplicates(),
            forall|k: Seq<char>| #[trigger] texts(r@).contains(k) == self@.contains_key(k),
    {
        self.cache.keys()
    }

    /// Asks for the guide of a channel.
    pub fn begin(&mut self, key: &str, now: u64) -> (r: EpgStep)
        ensures
            final(self)@ == old(self)@,
            final(self).config == old(self).config,
            match fresh_guide(old(self)@, old(self).config.ttl_secs, key@, now) {
                Some(e) => (r matches EpgStep::Cached(c) && c@ == e) && final(self).inflight@ == old(self).inflight@,
                None => if texts(old(self).inflight@).contains(key@) {
                    r is Wait && final(self).inflight@ == old(self).inflight@
                } else {
                    r is Fetch && texts(final(self).inflight@) == texts(old(self).inflight@).push(key@)
                },
            },
    {
        if let Some(e) = self.get_fresh(key, now) {
            return EpgStep::Cached(e);
        }
        if has_text(&self.inflight, key) {
            return EpgStep::Wait;
        }
        let ghost was = self.inflight@;
        self.inflight.push(owned(key));
        proof {
            assert(texts(self.inflight@) =~= texts(was).push(key@));
        }
        EpgStep::Fetch
    }

    /// What a channel that waited gets.
    pub fn after_wait(&self, key: &str, now: u64) -> (r: CachedEpg)
        ensures
            r@ == match fresh_guide(self@, self.config.ttl_secs, key@, now) {
                Some(e) => e,
                None => nothing_cached(now),
            },
    {
        match self.get_fresh(key, now) {
            Some(e) => e,
            None => empty_cached(now),
        }
    }

    /// Keeps what a walk found for a channel.
    pub fn finish(&mut self, key: &str, outcome: WalkOutcome, now: u64) -> (r: CachedEpg)
        ensures
            r@ == guide_of(outcome@, now),
            final(self)@ == old(self)@.insert(key@, guide_of(outcome@, now)),
            final(self).config == old(self).config,
            texts(final(self).inflight@) == without(texts(old(self).inflight@), key@),
    {
        let r = CachedEpg {
            programs: dedupe_programs(outcome.programs),
            fetched_at: now,
            meta: EpgMeta {
                program_count: outcome.program_count,
                span_hours: outcome.span_hours,
                source_stream_id: outcome.stream_id,
                source_host: outcome.host,
            },
        };
        self.cache.insert(owned(key), r.clone());
        let mut left: Vec<String> = Vec::new();
        let ghost src = texts(self.inflight@);
        let name = owned(key);
        let mut i: usize = 0;
        proof {
            assert(texts(left@) =~= without(src.take(0), key@));
        }
        while i < self.inflight.len()
            invariant
                i <= self.inflight@.len(),
                src == texts(self.inflight@),
                name@ == key@,
                texts(left@) == without(src.take(i as int), key@),
            decreases self.inflight@.len() - i,
        {
            let ghost was = texts(left@);
            proof {
                assert(src.take(i + 1).drop_last() =~= src.take(i as int));
                assert(src.take(i + 1).last() == self.inflight@[i as int]@);
            }
            if self.inflight[i] != name {
                left.push(self.inflight[i].clone());
                proof {
                    assert(texts(left@) =~= was.push(self.inflight@[i as int]@));
                }
            }
            i = i + 1;
        }
        proof {
            assert(src.take(i as int) =~= src);
        }
        self.inflight = left;
        r
    }
}

/// The texts but for those that are `t`.
pub open spec fn without(s: Seq<Seq<char>>, t: Seq<char>) -> Seq<Seq<char>>
    decreases s.len(),
{
    if s.len() == 0 {
        s
    } else if s.last() == t {
        without(s.drop_last(), t)
    } else {
        without(s.drop_last(), t).push(s.last())
    }
}

// --- What is promised of it -------------------------------------------------------------------

/// A guide counts by its programmes and by the hours from its first start to its last: a point for
/// each programme, and two for each whole hour.
pub proof fn law_guides_count_by_programmes_and_hours(s: Seq<ProgramView>, first: int, last: int)
    requires
        0 <= first < s.len(),
        0 <= last < s.len(),
        forall|i: int| 0 <= i < s.len() ==> (#[trigger] s[i]).start is Some,
        forall|i: int|
            0 <= i < s.len() ==> s[first].start->0.nanos <= (#[trigger] s[i]).start->0.nanos <= s[last].start->0.nanos,
        s[last].start->0.nanos - s[first].start->0.nanos < 0x1000_0000 * 3600000000000,
        s.len() < 0x1000_0000,
    ensures
        span_hours(s) == (s[last].start->0.nanos - s[first].start->0.nanos) / 3600000000000,
        epg_score(s) == s.len() + 2 * ((s[last].start->0.nanos - s[first].start->0.nanos) / 3600000000000),
{
    lemma_bounds_hold(s);
    let (lo, hi) = start_bounds(s)->0;
    assert(s[first].start->0.nanos >= lo && s[last].start->0.nanos <= hi);
}

proof fn lemma_bounds_hold(s: Seq<ProgramView>)
    requires
        s.len() > 0,
        forall|i: int| 0 <= i < s.len() ==> (#[trigger] s[i]).start is Some,
    ensures
        start_bounds(s) matches Some((lo, hi)) && (forall|i: int| 0 <= i < s.len() ==> lo <= (#[trigger] s[i]).start->0.nanos <= hi)
            && (exists|i: int| 0 <= i < s.len() && (#[trigger] s[i]).start->0.nanos == lo) && (exists|i: int|
            0 <= i < s.len() && (#[trigger] s[i]).start->0.nanos == hi),
    decreases s.len(),
{
    let t = s.drop_last();
    let n = s.len() - 1;
    assert(s.last() == s[n]);
    if t.len() > 0 {
        assert forall|i: int| 0 <= i < t.len() implies (#[trigger] t[i]).start is Some by {
            assert(t[i] == s[i]);
        }
        lemma_bounds_hold(t);
        let (lo, hi) = start_bounds(t)->0;
        let a = choose|i: int| 0 <= i < t.len() && (#[trigger] t[i]).start->0.nanos == lo;
        let b = choose|i: int| 0 <= i < t.len() && (#[trigger] t[i]).start->0.nanos == hi;
        assert(s[a] == t[a] && s[b] == t[b]);
        let (low, high) = start_bounds(s)->0;
        assert forall|i: int| 0 <= i < s.len() implies low <= (#[trigger] s[i]).start->0.nanos <= high by {
            if i < n {
                assert(t[i] == s[i]);
            }
        }
        assert(s[a].start->0.nanos == low || s[n].start->0.nanos == low);
        assert(s[b].start->0.nanos == high || s[n].start->0.nanos == high);
    } else {
        assert(start_bounds(t) is None);
        let (low, high) = start_bounds(s)->0;
        assert(s[0].start->0.nanos == low);
    }
}

/// Of two programmes with one title that start less than 31 minutes apart, the longer one is kept,
/// and the first of two that are as long; others are both kept, the earlier one first.
pub proof fn law_doubles_are_told_by_title_and_start(p: ProgramView, q: ProgramView, a: Moment, b: Moment, c: Moment, d: Moment)
    requires
        p.start == Some(a),
        p.end == Some(b),
        q.start == Some(c),
        q.end == Some(d),
        a.nanos <= c.nanos,
    ensures
        p.title == q.title && c.nanos - a.nanos < 31 * 60000000000 && d.nanos - c.nanos <= b.nanos - a.nanos ==> deduped(
            seq![p, q],
        ) == seq![p],
        p.title == q.title && c.nanos - a.nanos < 31 * 60000000000 && d.nanos - c.nanos > b.nanos - a.nanos ==> deduped(
            seq![p, q],
        ) == seq![q],
        c.nanos - a.nanos >= 31 * 60000000000 ==> deduped(seq![p, q]) == seq![p, q],
        c.nanos - a.nanos >= 31 * 60000000000 ==> deduped(seq![q, p]) == seq![p, q],
        lowercase(trim(p.title)) != lowercase(trim(q.title)) ==> deduped(seq![p, q]) == seq![p, q],
{
    lemma_two_dated(p, q);
    lemma_two_dated(q, p);
    lemma_two_ranked(p, q);
    lemma_two_folded(p, q);
}

proof fn lemma_two_dated(p: ProgramView, q: ProgramView)
    requires
        is_dated(p),
        is_dated(q),
    ensures
        dated(seq![p, q]) == seq![p, q],
{
    reveal_with_fuel(dated, 3);
    assert(seq![p, q].drop_last() =~= seq![p]);
    assert(seq![p].drop_last() =~= Seq::empty());
    assert(dated(seq![p]) =~= seq![p]);
    assert(dated(seq![p, q]) =~= seq![p, q]);
}

proof fn lemma_two_ranked(p: ProgramView, q: ProgramView)
    requires
        is_dated(p),
        is_dated(q),
        start_nanos(p) <= start_nanos(q),
    ensures
        ranked_by(seq![p, q], start_rank()) == seq![p, q],
        start_nanos(p) < start_nanos(q) ==> ranked_by(seq![q, p], start_rank()) == seq![p, q],
{
    let rank = start_rank();
    reveal_with_fuel(ranked_by, 3);
    reveal_with_fuel(insert_by, 3);
    reveal_with_fuel(lex_lt, 2);
    assert(seq![p, q].drop_last() =~= seq![p]);
    assert(seq![q, p].drop_last() =~= seq![q]);
    assert(seq![p].drop_last() =~= Seq::empty());
    assert(seq![q].drop_last() =~= Seq::empty());
    assert(ranked_by(seq![p], rank) =~= seq![p]);
    assert(ranked_by(seq![q], rank) =~= seq![q]);
    assert(ranked_by(seq![p, q], rank) =~= seq![p, q]);
    if start_nanos(p) < start_nanos(q) {
        assert(insert_by(Seq::empty(), p, rank) =~= seq![p]);
        assert(ranked_by(seq![q, p], rank) =~= seq![p, q]);
    }
}

proof fn lemma_two_folded(p: ProgramView, q: ProgramView)
    ensures
        folded(seq![p, q]) == merged(seq![p], q),
        twin(seq![p], q, 0) == (if minutes_apart(q, p) > 30 || title_key(p) != title_key(q) {
            None::<int>
        } else {
            Some(0int)
        }),
        seq![p].update(0, q) == seq![q],
        seq![p].push(q) == seq![p, q],
{
    reveal_with_fuel(folded, 3);
    reveal_with_fuel(twin, 2);
    assert(seq![p, q].drop_last() =~= seq![p]);
    assert(seq![p].drop_last() =~= Seq::empty());
    assert(merged(Seq::empty(), p) =~= seq![p]);
    assert(seq![p].update(0, q) =~= seq![q]);
    assert(seq![p].push(q) =~= seq![p, q]);
}

/// A programme without a start or without an end is not shown.
pub proof fn law_open_programmes_are_not_shown(p: ProgramView)
    requires
        p.start is None || p.end is None,
    ensures
        deduped(seq![p]).len() == 0,
{
    reveal_with_fuel(dated, 3);
    assert(seq![p].drop_last() =~= Seq::empty());
    assert(dated(seq![p]) =~= Seq::empty());
}

/// A programme of the radio has its name and its description, and starts at its date by the clocks
/// of Lisbon; one without a date that can be read is left out.
pub proof fn law_radio_programmes_are_told(e: Json, before: Seq<Json>, date: Seq<char>, nanos: int)
    requires
        e.field_text("date"@) == Some(date),
    ensures
        utc_by_format(date, "[year]-[month]-[day] [hour]:[minute]:[second]"@) is None ==> rtp_programs(before.push(e))
            == rtp_programs(before),
        utc_by_format(date, "[year]-[month]-[day] [hour]:[minute]:[second]"@) == Some(nanos) && -377705116800000000000 <= nanos
            < 253402300800000000000 ==> {
            let r = rtp_programs(before.push(e));
            let month = utc_fields(nanos / 1000000000).1;
            &&& r.len() == rtp_programs(before).len() + 1
            &&& r.drop_last() == rtp_programs(before)
            &&& r.last().start matches Some(m) && m.nanos == (if month < 4 || month > 10 {
                nanos
            } else {
                nanos - 3600000000000
            })
            &&& e.field_text("name"@) matches Some(t) ==> (no_entity(t) ==> r.last().title == t)
            &&& e.field_text("description"@) matches Some(t) ==> (no_entity(t) ==> r.last().description == t)
            &&& !r.last().has_archive
        },
{
    assert(before.push(e).drop_last() =~= before);
    if let Some(t) = e.field_text("name"@) {
        if no_entity(t) {
            lemma_no_entity(t, 17);
        }
    }
    if let Some(t) = e.field_text("description"@) {
        if no_entity(t) {
            lemma_no_entity(t, 17);
        }
    }
    let r = rtp_programs(before.push(e));
    if rtp_time(Some(date)) is Some {
        assert(r.drop_last() =~= rtp_programs(before));
    }
}

/// The text names no character.
pub open spec fn no_entity(s: Seq<char>) -> bool {
    forall|i: int| 0 <= i < s.len() ==> s[i] != '&'
}

proof fn lemma_no_entity(s: Seq<char>, n: nat)
    requires
        no_entity(s),
        n <= 17,
    ensures
        entities_replaced(s, n) == s,
    decreases n,
{
    if n > 0 {
        lemma_no_entity(s, (n - 1) as nat);
        let pat = entity_texts()[n - 1].0;
        lemma_entities_start(n - 1);
        lemma_not_found(s, pat);
    }
}

proof fn lemma_entities_start(k: int)
    requires
        0 <= k < 17,
    ensures
        entity_texts()[k].0.len() > 0,
        entity_texts()[k].0[0] == '&',
{
    reveal_strlit("&ccedil;");
    reveal_strlit("&Ccedil;");
    reveal_strlit("&atilde;");
    reveal_strlit("&Atilde;");
    reveal_strlit("&otilde;");
    reveal_strlit("&Otilde;");
    reveal_strlit("&aacute;");
    reveal_strlit("&eacute;");
    reveal_strlit("&iacute;");
    reveal_strlit("&oacute;");
    reveal_strlit("&uacute;");
    reveal_strlit("&Aacute;");
    reveal_strlit("&Eacute;");
    reveal_strlit("&Iacute;");
    reveal_strlit("&Oacute;");
    reveal_strlit("&Uacute;");
    reveal_strlit("&amp;");
}

proof fn lemma_not_found(s: Seq<char>, pat: Seq<char>)
    requires
        no_entity(s),
        pat.len() > 0,
        pat[0] == '&',
    ensures
        replaced_text(s, pat, Seq::empty()) == s,
        forall|with: Seq<char>| #[trigger] replaced_text(s, pat, with) == s,
{
    lemma_find_from(s, pat, 0);
    assert forall|i: int| !occurs_at(s, pat, i) by {
        if occurs_at(s, pat, i) {
            assert(s.subrange(i, i + pat.len())[0] == s[i]);
        }
    }
}

/// Radio programmes follow each other: each ends where the next one starts, and the last is open.
pub proof fn law_radio_programmes_follow_each_other(v: Json, i: int)
    ensures
        ({
            let r = linked(rtp_programs(rtp_entries(v)));
            &&& 0 <= i < r.len() - 1 ==> r[i].end == r[i + 1].start
            &&& r.len() > 0 ==> r.last().end is None
        }),
{
    lemma_rtp_open(rtp_entries(v));
    let r = linked(rtp_programs(rtp_entries(v)));
    if r.len() > 0 {
        assert(rtp_programs(rtp_entries(v))[r.len() - 1].end is None);
    }
}

proof fn lemma_rtp_open(s: Seq<Json>)
    ensures
        forall|i: int| 0 <= i < rtp_programs(s).len() ==> (#[trigger] rtp_programs(s)[i]).end is None,
    decreases s.len(),
{
    if s.len() > 0 {
        lemma_rtp_open(s.drop_last());
    }
}

/// A day has the programmes of its morning, then of its afternoon, then of its evening.
pub proof fn law_days_run_from_morning_to_evening(v: Json, o: Vec<(String, Json)>, a: Vec<Json>, b: Vec<Json>, c: Vec<Json>)
    requires
        v.field("result"@) == Some(Json::Object(o)),
        Json::Object(o).field("morning"@) == Some(Json::List(a)),
        Json::Object(o).field("afternoon"@) == Some(Json::List(b)),
        Json::Object(o).field("evening"@) == Some(Json::List(c)),
    ensures
        rtp_entries(v) == a@ + b@ + c@,
{
}

/// A guide lasts for the seconds that are configured, and not longer.
pub proof fn law_guides_last(m: Map<Seq<char>, CachedView>, ttl_secs: u64, key: Seq<char>, now: u64)
    requires
        m.contains_key(key),
        m[key].fetched_at <= now,
    ensures
        now - m[key].fetched_at <= ttl_secs * 1000000000 ==> fresh_guide(m, ttl_secs, key, now) == Some(m[key]),
        now - m[key].fetched_at > ttl_secs * 1000000000 ==> fresh_guide(m, ttl_secs, key, now) is None,
{
}

/// What is kept of a walk tells where the guide came from, and how much of it there was.
pub proof fn law_kept_guides_tell_their_source(o: OutcomeView, now: u64)
    ensures
        guide_of(o, now).fetched_at == now,
        guide_of(o, now).meta.source_stream_id == o.stream_id,
        guide_of(o, now).meta.source_host == o.host,
        guide_of(o, now).meta.program_count == o.program_count,
        guide_of(o, now).meta.span_hours == o.span_hours,
        forall|i: int| 0 <= i < guide_of(o, now).programs.len() ==> o.programs.contains(#[trigger] guide_of(o, now).programs[i]),
{
    law_dedupe_only_drops(o.programs);
}

/// A place with a higher priority always wins, and among equals the guide with the higher score.
pub proof fn law_better_guides_win(p: u8, q: u8, a: i64, b: i64)
    ensures
        p > q ==> better(p, a, q, b) && !better(q, b, p, a),
        p == q && a > b ==> better(p, a, q, b) && !better(q, b, p, a),
        !better(p, a, p, a),
{
}

/// A walk ends early only with a guide of at least twenty programmes over a day.
pub proof fn law_walks_end_with_a_full_day(w: EpgWalk)
    ensures
        walk_done(w) ==> w.best.program_count >= 20 && w.best.span_hours >= 24,
        w.best.program_count >= 20 && w.best.span_hours >= 24 && w.priority_remaining == 0 ==> walk_done(w),
        w.best.program_count >= 20 && w.best.span_hours >= 24 && w.best_priority > 0 ==> walk_done(w),
{
}

/// The places with a priority are counted.
pub proof fn law_priorities_are_counted(s: Seq<EpgCandidate>)
    ensures
        with_priority(s) == s.filter(|c: EpgCandidate| c.weight() > 0).len(),
    decreases s.len(),
{
    reveal(Seq::filter);
    if s.len() > 0 {
        law_priorities_are_counted(s.drop_last());
    }
}

} // verus!
