//! The Xtream codes interface: its URLs, and what its answers say.
use vstd::prelude::*;
use vstd::utf8::{decode_utf8, encode_utf8, valid_utf8};
use crate::json::{Json, as_number, is_true_word, is_truthy, says_true, to_number, truthy};
use crate::outside::{base64_padded, base64_unpadded, decode_base64, decode_base64_unpadded, from_utf8};
use crate::outside::{from_utf8_lossy, in_calendar, opt_bytes, parse_rfc3339, parse_utc, read_utc_fields, rfc3339};
use crate::outside::{utc_by_format, utc_fields, utf8_lossy};
use crate::radio::RadioFormat;
use crate::text::{ascii_lowercase, chars_of, decimal, decimal_string, digit, digit_char, lemma_decimal_round_trip};
use crate::text::{owned, padded, parse_i64, parse_u32, push_decimal, push_padded};
use crate::text::{push_text, str_eq, to_i64, to_u32, trim_end_char, trim_end_matches};
use crate::urlencoding::{encode, encoded};

verus! {

/// The account at the provider.
#[derive(Debug)]
pub struct XtreamClient {
    pub username: String,
    pub password: String,
}

/// The text, percent-encoded.
pub open spec fn escaped(s: Seq<char>) -> Seq<char> {
    encoded(encode_utf8(s))
}

/// The query parameters, each behind an ampersand.
pub open spec fn query(params: Seq<(String, String)>) -> Seq<char>
    decreases params.len(),
{
    if params.len() == 0 {
        Seq::empty()
    } else {
        query(params.drop_last()) + "&"@ + params.last().0@ + "="@ + escaped(params.last().1@)
    }
}

/// The stamp of a time-shift URL, to the minute, for a number of seconds since the Unix epoch.
pub open spec fn timeshift_stamp(secs: int) -> Seq<char> {
    let (y, mo, d, h, mi) = utc_fields(secs);
    signed_padded(y, 4) + "-"@ + padded(mo as nat, 2) + "-"@ + padded(d as nat, 2) + ":"@ + padded(h as nat, 2) + "-"@
        + padded(mi as nat, 2)
}

/// A number with zeros up to `width` characters, a minus sign among them.
pub open spec fn signed_padded(n: int, width: nat) -> Seq<char> {
    if n >= 0 {
        padded(n as nat, width)
    } else {
        "-"@ + padded((-n) as nat, (width - 1) as nat)
    }
}

/// The stamp that a time-shift URL starts at, in UTC: `2026-05-10:02-24`.
pub fn format_timeshift_start(secs: i64) -> (r: String)
    requires
        in_calendar(secs as int),
    ensures
        r@ == timeshift_stamp(secs as int),
{
    let (y, mo, d, h, mi) = read_utc_fields(secs);
    let mut out = String::new();
    if y >= 0 {
        push_padded(&mut out, y as u64, 4);
    } else {
        push_text(&mut out, "-");
        push_padded(&mut out, (-y) as u64, 3);
    }
    push_text(&mut out, "-");
    push_padded(&mut out, mo as u64, 2);
    push_text(&mut out, "-");
    push_padded(&mut out, d as u64, 2);
    push_text(&mut out, ":");
    push_padded(&mut out, h as u64, 2);
    push_text(&mut out, "-");
    push_padded(&mut out, mi as u64, 2);
    proof {
        assert(out@ =~= timeshift_stamp(secs as int));
    }
    out
}

impl XtreamClient {
    pub fn new(username: String, password: String) -> (r: Self)
        ensures
            r.username == username,
            r.password == password,
    {
        XtreamClient { username, password }
    }

    /// The URL of an interface call.
    pub open spec fn api_url(self, host: Seq<char>, action: Option<Seq<char>>, params: Seq<(String, String)>) -> Seq<
        char,
    > {
        trim_end_char(host, '/') + "/player_api.php?username="@ + escaped(self.username@) + "&password="@ + escaped(
            self.password@,
        ) + (match action {
            Some(a) => "&action="@ + escaped(a),
            None => Seq::empty(),
        }) + query(params)
    }

    pub fn url(&self, host: &str, action: Option<&str>, params: &[(String, String)]) -> (r: String)
        ensures
            r@ == self.api_url(
                host@,
                match action {
                    Some(a) => Some(a@),
                    None => None,
                },
                params@,
            ),
    {
        let mut s = trim_end_matches(host, '/');
        push_text(&mut s, "/player_api.php?username=");
        push_text(&mut s, &encode(&self.username));
        push_text(&mut s, "&password=");
        push_text(&mut s, &encode(&self.password));
        let ghost head = s@;
        if let Some(a) = action {
            push_text(&mut s, "&action=");
            push_text(&mut s, &encode(a));
            proof {
                assert(s@ =~= head + ("&action="@ + escaped(a@)));
            }
        }
        let ghost front = s@;
        let mut i: usize = 0;
        proof {
            assert(s@ =~= front + query(params@.take(0)));
        }
        while i < params.len()
            invariant
                i <= params@.len(),
                s@ == front + query(params@.take(i as int)),
            decreases params@.len() - i,
        {
            let ghost was = query(params@.take(i as int));
            push_text(&mut s, "&");
            push_text(&mut s, &params[i].0);
            push_text(&mut s, "=");
            push_text(&mut s, &encode(&params[i].1));
            proof {
                assert(params@.take(i + 1).drop_last() =~= params@.take(i as int));
                assert(s@ =~= front + query(params@.take(i + 1)));
            }
            i = i + 1;
        }
        proof {
            assert(params@.take(i as int) =~= params@);
            assert(s@ =~= self.api_url(
                host@,
                match action {
                    Some(a) => Some(a@),
                    None => None,
                },
                params@,
            ));
        }
        s
    }

    /// The URL of a live stream.
    pub open spec fn live_url(self, host: Seq<char>, stream_id: nat, ext: Seq<char>) -> Seq<char> {
        trim_end_char(host, '/') + "/live/"@ + self.username@ + "/"@ + self.password@ + "/"@ + decimal(stream_id) + "."@
            + ext
    }

    pub fn stream_url(&self, host: &str, stream_id: u64, ext: &str) -> (r: String)
        ensures
            r@ == self.live_url(host@, stream_id as nat, ext@),
    {
        let mut s = trim_end_matches(host, '/');
        push_text(&mut s, "/live/");
        push_text(&mut s, &self.username);
        push_text(&mut s, "/");
        push_text(&mut s, &self.password);
        push_text(&mut s, "/");
        push_decimal(&mut s, stream_id);
        push_text(&mut s, ".");
        push_text(&mut s, ext);
        s
    }

    /// The URL of a recording that starts at `start` and runs for `minutes`.
    pub open spec fn archive_url(self, host: Seq<char>, stream_id: nat, minutes: nat, start: int) -> Seq<char> {
        trim_end_char(host, '/') + "/timeshift/"@ + self.username@ + "/"@ + self.password@ + "/"@ + decimal(minutes)
            + "/"@ + timeshift_stamp(start) + "/"@ + decimal(stream_id) + ".m3u8"@
    }

    pub fn timeshift_url(&self, host: &str, stream_id: u64, duration_min: u32, start: i64) -> (r: String)
        requires
            in_calendar(start as int),
        ensures
            r@ == self.archive_url(host@, stream_id as nat, duration_min as nat, start as int),
    {
        let mut s = trim_end_matches(host, '/');
        push_text(&mut s, "/timeshift/");
        push_text(&mut s, &self.username);
        push_text(&mut s, "/");
        push_text(&mut s, &self.password);
        push_text(&mut s, "/");
        push_decimal(&mut s, duration_min as u64);
        push_text(&mut s, "/");
        push_text(&mut s, &format_timeshift_start(start));
        push_text(&mut s, "/");
        push_decimal(&mut s, stream_id);
        push_text(&mut s, ".m3u8");
        s
    }
}

impl XtreamClient {
    /// The URL that tells of the account.
    pub fn account_url(&self, host: &str) -> (r: String)
        ensures
            r@ == self.api_url(host@, None, Seq::empty()),
    {
        let none: Vec<(String, String)> = Vec::new();
        proof {
            assert(none@ =~= Seq::empty());
        }
        self.url(host, None, &none)
    }

    /// The URL of the list of streams.
    pub fn streams_url(&self, host: &str) -> (r: String)
        ensures
            r@ == self.api_url(host@, Some("get_live_streams"@), Seq::empty()),
    {
        let none: Vec<(String, String)> = Vec::new();
        proof {
            assert(none@ =~= Seq::empty());
        }
        self.url(host, Some("get_live_streams"), &none)
    }

    /// The URL of the whole guide of a stream.
    pub fn guide_url(&self, host: &str, stream_id: u64) -> (r: String)
        ensures
            r@ == self.api_url(host@, Some("get_simple_data_table"@), Seq::empty()) + "&stream_id="@ + escaped(
                decimal(stream_id as nat),
            ),
    {
        let params = vec![(owned("stream_id"), decimal_string(stream_id))];
        let r = self.url(host, Some("get_simple_data_table"), &params);
        proof {
            lemma_one_param(params@);
            assert(r@ =~= self.api_url(host@, Some("get_simple_data_table"@), Seq::empty()) + "&stream_id="@ + escaped(
                decimal(stream_id as nat),
            )) by {
                reveal_strlit("&");
                reveal_strlit("=");
                reveal_strlit("stream_id");
                reveal_strlit("&stream_id=");
                assert("&"@ + "stream_id"@ + "="@ =~= "&stream_id="@);
            }
        }
        r
    }

    /// The URL of the next entries of the guide of a stream, as many as the limit says.
    pub fn short_guide_url(&self, host: &str, stream_id: u64, limit: Option<u32>) -> (r: String)
        ensures
            r@ == self.api_url(host@, Some("get_short_epg"@), Seq::empty()) + "&stream_id="@ + escaped(
                decimal(stream_id as nat),
            ) + (match limit {
                Some(n) => "&limit="@ + escaped(decimal(n as nat)),
                None => Seq::empty(),
            }),
    {
        let n: u32 = match limit {
            Some(n) => n,
            None => {
                let params = vec![(owned("stream_id"), decimal_string(stream_id))];
                let r = self.url(host, Some("get_short_epg"), &params);
                proof {
                    lemma_one_param(params@);
                    assert(r@ =~= self.api_url(host@, Some("get_short_epg"@), Seq::empty()) + "&stream_id="@ + escaped(
                        decimal(stream_id as nat),
                    )) by {
                        reveal_strlit("&");
                        reveal_strlit("=");
                        reveal_strlit("stream_id");
                        reveal_strlit("&stream_id=");
                        assert("&"@ + "stream_id"@ + "="@ =~= "&stream_id="@);
                    }
                }
                return r;
            },
        };
        let params = vec![
            (owned("stream_id"), decimal_string(stream_id)),
            (owned("limit"), decimal_string(n as u64)),
        ];
        let r = self.url(host, Some("get_short_epg"), &params);
        proof {
            lemma_one_param(params@.drop_last());
            assert(r@ =~= self.api_url(host@, Some("get_short_epg"@), Seq::empty()) + "&stream_id="@ + escaped(
                decimal(stream_id as nat),
            ) + "&limit="@ + escaped(decimal(n as nat))) by {
                reveal_strlit("&");
                reveal_strlit("=");
                reveal_strlit("stream_id");
                reveal_strlit("&stream_id=");
                reveal_strlit("limit");
                reveal_strlit("&limit=");
                assert("&"@ + "stream_id"@ + "="@ =~= "&stream_id="@);
                assert("&"@ + "limit"@ + "="@ =~= "&limit="@);
            }
        }
        r
    }
}

proof fn lemma_one_param(params: Seq<(String, String)>)
    requires
        params.len() == 1,
    ensures
        query(params) == "&"@ + params[0].0@ + "="@ + escaped(params[0].1@),
{
    assert(params.drop_last() =~= Seq::empty());
    assert(query(params.drop_last()) =~= Seq::empty());
    assert(query(params) =~= "&"@ + params[0].0@ + "="@ + escaped(params[0].1@));
}

/// The streams, marked with the host that listed them.
pub fn tag_origin(streams: Vec<LiveStream>, host: &str) -> (r: Vec<LiveStream>)
    ensures
        r@.len() == streams@.len(),
        forall|i: int|
            0 <= i < r@.len() ==> (#[trigger] r@[i]) == (LiveStream { origin_host: r@[i].origin_host, ..streams@[i] })
                && r@[i].origin_host@ == host@,
{
    let ghost items = streams@;
    let mut out: Vec<LiveStream> = Vec::new();
    for s in it: streams
        invariant
            it.seq() == items,
            out@.len() == it.index(),
            forall|i: int|
                0 <= i < out@.len() ==> (#[trigger] out@[i]) == (LiveStream { origin_host: out@[i].origin_host, ..items[i] })
                    && out@[i].origin_host@ == host@,
    {
        let mut s = s;
        s.origin_host = owned(host);
        out.push(s);
    }
    out
}

/// What the provider says of the account.
#[derive(Debug)]
pub struct UserInfo {
    pub auth: Json,
    pub status: Option<String>,
    pub active_cons: Option<Json>,
    pub max_connections: Option<Json>,
    pub exp_date: Option<Json>,
}

impl UserInfo {
    /// The account is let in: a number above zero, the text "1" or "true", or `true`.
    pub open spec fn authenticated(self) -> bool {
        match self.auth {
            Json::Number(Some(n)) => n > 0,
            Json::Text(s) => s@ == "1"@ || says_true(s@),
            Json::Bool(b) => b,
            _ => false,
        }
    }

    pub fn is_authenticated(&self) -> (r: bool)
        ensures
            r == self.authenticated(),
    {
        match &self.auth {
            Json::Number(Some(n)) => *n > 0,
            Json::Text(s) => str_eq(s, "1") || is_true_word(s),
            Json::Bool(b) => *b,
            _ => false,
        }
    }

    /// How many connections the account may have at a time, where the provider says so.
    pub fn max_connections_value(&self) -> (r: Option<u32>)
        ensures
            r == match self.max_connections {
                Some(Json::Number(Some(n))) if n <= u32::MAX => Some(n as u32),
                Some(Json::Text(s)) => parse_u32(s@),
                _ => None,
            },
    {
        match &self.max_connections {
            Some(Json::Number(Some(n))) => if *n <= u32::MAX as u64 {
                Some(*n as u32)
            } else {
                None
            },
            Some(Json::Text(s)) => to_u32(&chars_of(s)),
            _ => None,
        }
    }
}

/// Television from a provider, or radio from a playlist file.
#[derive(Debug, Clone, Copy, PartialEq, Eq, Structural)]
pub enum ChannelKind {
    Tv,
    Radio,
}

/// One stream of a provider's list, or of a radio playlist.
#[derive(Debug)]
pub struct LiveStream {
    pub stream_id: u64,
    pub name: String,
    pub stream_icon: String,
    pub category_id: String,
    pub epg_channel_id: Option<u64>,
    pub added: Option<String>,
    pub custom_sid: Option<String>,
    pub tv_archive: Option<Json>,
    pub tv_archive_duration: Option<Json>,
    pub direct_source: Option<String>,
    pub kind: ChannelKind,
    /// The host that listed the stream; empty for radio.
    pub origin_host: String,
    /// How radio arrives; none for television.
    pub radio_format: Option<RadioFormat>,
}

impl LiveStream {
    pub open spec fn archived(self) -> bool {
        match self.tv_archive {
            Some(v) => truthy(v),
            None => false,
        }
    }

    pub fn has_tv_archive(&self) -> (r: bool)
        ensures
            r == self.archived(),
    {
        match &self.tv_archive {
            Some(v) => is_truthy(v),
            None => false,
        }
    }

    /// How many days the archive goes back, at most `u32::MAX`; none for zero.
    pub open spec fn archive_days(self) -> Option<u32> {
        match self.tv_archive_duration {
            Some(v) => match as_number(v) {
                Some(n) if n > 0 => Some(if n <= u32::MAX { n as u32 } else { u32::MAX }),
                _ => None,
            },
            None => None,
        }
    }

    pub fn tv_archive_days(&self) -> (r: Option<u32>)
        ensures
            r == self.archive_days(),
    {
        match &self.tv_archive_duration {
            Some(v) => match to_number(v) {
                Some(n) => if n == 0 {
                    None
                } else if n <= u32::MAX as u64 {
                    Some(n as u32)
                } else {
                    Some(u32::MAX)
                },
                None => None,
            },
            None => None,
        }
    }
}

// --- Programme listings -----------------------------------------------------------------

/// A point in time: nanoseconds since the Unix epoch, and the offset from UTC in seconds
/// in which it was written down.
#[derive(Debug, Clone, Copy, PartialEq, Eq, Structural)]
pub struct Moment {
    pub nanos: i128,
    pub offset: i32,
}

/// One programme.
#[derive(Debug)]
pub struct EpgProgram {
    pub title: String,
    pub description: String,
    pub start: Option<Moment>,
    pub end: Option<Moment>,
    pub has_archive: bool,
}

/// The contents of an `EpgProgram`.
pub struct ProgramView {
    pub title: Seq<char>,
    pub description: Seq<char>,
    pub start: Option<Moment>,
    pub end: Option<Moment>,
    pub has_archive: bool,
}

impl View for EpgProgram {
    type V = ProgramView;

    open spec fn view(&self) -> ProgramView {
        ProgramView {
            title: self.title@,
            description: self.description@,
            start: self.start,
            end: self.end,
            has_archive: self.has_archive,
        }
    }
}

impl Clone for EpgProgram {
    fn clone(&self) -> (r: Self)
        ensures
            r@ == self@,
    {
        EpgProgram {
            title: self.title.clone(),
            description: self.description.clone(),
            start: self.start,
            end: self.end,
            has_archive: self.has_archive,
        }
    }
}

/// The programmes' contents.
pub open spec fn program_views(v: Seq<EpgProgram>) -> Seq<ProgramView> {
    v.map_values(|p: EpgProgram| p@)
}

/// Whole seconds since the Unix epoch as a point in time, where the calendar holds them.
pub open spec fn moment_of(secs: int) -> Option<Moment> {
    if in_calendar(secs) {
        Some(Moment { nanos: (secs * 1000000000) as i128, offset: 0 })
    } else {
        None
    }
}

fn to_moment(secs: i64) -> (r: Option<Moment>)
    ensures
        r == moment_of(secs as int),
{
    if -377705116800 <= secs && secs <= 253402300799 {
        Some(Moment { nanos: secs as i128 * 1000000000, offset: 0 })
    } else {
        None
    }
}

/// The signed number with the same 64 bits.
pub open spec fn as_signed(n: u64) -> int {
    if n <= i64::MAX {
        n as int
    } else {
        n - 0x1_0000_0000_0000_0000
    }
}

fn to_signed(n: u64) -> (r: i64)
    ensures
        r == as_signed(n),
{
    if n <= i64::MAX as u64 {
        n as i64
    } else {
        -((u64::MAX - n) as i64) - 1
    }
}

/// How a provider writes date and time down.
pub open spec fn plain_format() -> Seq<char> {
    "[year]-[month]-[day] [hour]:[minute]:[second]"@
}

/// The time that a text gives, by what RFC 3339 and the plain format make of it.
pub open spec fn text_time(by_rfc: Option<(int, int)>, by_format: Option<int>) -> Option<Moment> {
    match by_rfc {
        Some((n, o)) => Some(Moment { nanos: n as i128, offset: o as i32 }),
        None => match by_format {
            Some(n) => Some(Moment { nanos: n as i128, offset: 0 }),
            None => None,
        },
    }
}

/// The first of two readings of a text that there is.
pub fn time_from_readings(by_rfc: Option<(i128, i32)>, by_format: Option<i128>) -> (r: Option<Moment>)
    ensures
        r == text_time(
            match by_rfc {
                Some((n, o)) => Some((n as int, o as int)),
                None => None,
            },
            match by_format {
                Some(n) => Some(n as int),
                None => None,
            },
        ),
{
    match by_rfc {
        Some((nanos, offset)) => Some(Moment { nanos, offset }),
        None => match by_format {
            Some(nanos) => Some(Moment { nanos, offset: 0 }),
            None => None,
        },
    }
}

/// The time in a programme: the seconds in the member `ts`, a number or a text of one,
/// where there is such a number; else the text in the member `text`.
pub open spec fn program_time(p: Json, ts: Seq<char>, text: Seq<char>) -> Option<Moment> {
    let fallback = match p.field_text(text) {
        Some(s) => text_time(rfc3339(s), utc_by_format(s, plain_format())),
        None => None,
    };
    match p.field(ts) {
        Some(Json::Number(Some(n))) => moment_of(as_signed(n)),
        Some(Json::Text(s)) => match parse_i64(s@) {
            Some(n) => moment_of(n as int),
            None => fallback,
        },
        _ => fallback,
    }
}

pub fn parse_ts(p: &Json, ts_field: &str, str_field: &str) -> (r: Option<Moment>)
    ensures
        r == program_time(*p, ts_field@, str_field@),
{
    match p.get(ts_field) {
        Some(Json::Number(Some(n))) => {
            return to_moment(to_signed(*n));
        },
        Some(Json::Text(s)) => {
            if let Some(n) = to_i64(&chars_of(s)) {
                return to_moment(n);
            }
        },
        _ => {},
    }
    match p.get_text(str_field) {
        Some(s) => {
            let by_rfc = parse_rfc3339(s);
            let by_format = parse_utc(s, "[year]-[month]-[day] [hour]:[minute]:[second]");
            time_from_readings(by_rfc, by_format)
        },
        None => None,
    }
}

/// The flag in the member `key`.
pub open spec fn program_flag(p: Json, key: Seq<char>) -> bool {
    match p.field(key) {
        Some(v) => truthy(v),
        None => false,
    }
}

pub fn parse_bool_field(p: &Json, key: &str) -> (r: bool)
    ensures
        r == program_flag(*p, key@),
{
    match p.get(key) {
        Some(v) => is_truthy(v),
        None => false,
    }
}

/// The text that the bytes hold.
pub open spec fn bytes_text(b: Seq<u8>) -> Seq<char> {
    if valid_utf8(b) {
        decode_utf8(b)
    } else {
        utf8_lossy(b)
    }
}

/// The text behind a base64 text, by what the two decoders make of it: the first result
/// that there is, read as UTF-8, or else the text itself.
pub open spec fn unwrapped_text(s: Seq<char>, with_padding: Option<Seq<u8>>, without: Option<Seq<u8>>) -> Seq<char> {
    if s.len() == 0 {
        s
    } else {
        match with_padding {
            Some(b) => bytes_text(b),
            None => match without {
                Some(b) => bytes_text(b),
                None => s,
            },
        }
    }
}

fn read_bytes_text(b: Vec<u8>) -> (r: String)
    ensures
        r@ == bytes_text(b@),
{
    let lossy = from_utf8_lossy(&b);
    match from_utf8(b) {
        Some(s) => s,
        None => lossy,
    }
}

/// Chooses among what the two decoders made of a base64 text.
pub fn unwrap_text(s: &str, with_padding: Option<Vec<u8>>, without: Option<Vec<u8>>) -> (r: String)
    ensures
        r@ == unwrapped_text(s@, opt_bytes(with_padding), opt_bytes(without)),
{
    if s.is_empty() {
        return String::new();
    }
    match with_padding {
        Some(b) => read_bytes_text(b),
        None => match without {
            Some(b) => read_bytes_text(b),
            None => owned(s),
        },
    }
}

/// The text behind a base64 text, with or without padding; what is no base64 stays.
pub fn b64_decode(s: &str) -> (r: String)
    ensures
        r@ == unwrapped_text(s@, base64_padded(s@), base64_unpadded(s@)),
{
    unwrap_text(s, decode_base64(s), decode_base64_unpadded(s))
}

/// The text in a member behind its base64.
pub open spec fn program_text(p: Json, key: Seq<char>) -> Seq<char> {
    let s = match p.field_text(key) {
        Some(s) => s,
        None => Seq::empty(),
    };
    unwrapped_text(s, base64_padded(s), base64_unpadded(s))
}

fn parse_program_text(p: &Json, key: &str) -> (r: String)
    ensures
        r@ == program_text(*p, key@),
{
    match p.get_text(key) {
        Some(s) => b64_decode(s),
        None => {
            let s = String::new();
            b64_decode(&s)
        },
    }
}

/// One programme of a listing.
pub open spec fn program(p: Json) -> ProgramView {
    ProgramView {
        title: program_text(p, "title"@),
        description: program_text(p, "description"@),
        start: program_time(p, "start_timestamp"@, "start"@),
        end: program_time(p, "stop_timestamp"@, "end"@),
        has_archive: program_flag(p, "has_archive"@),
    }
}

pub fn parse_epg_program(p: &Json) -> (r: EpgProgram)
    ensures
        r@ == program(*p),
{
    EpgProgram {
        title: parse_program_text(p, "title"),
        description: parse_program_text(p, "description"),
        start: parse_ts(p, "start_timestamp", "start"),
        end: parse_ts(p, "stop_timestamp", "end"),
        has_archive: parse_bool_field(p, "has_archive"),
    }
}

/// The programmes of a listing, in their order.
pub open spec fn listings(v: Json) -> Seq<ProgramView> {
    match v.field("epg_listings"@) {
        Some(Json::List(l)) => Seq::new(l@.len(), |i: int| program(l@[i])),
        _ => Seq::empty(),
    }
}

pub fn parse_epg_listings(v: &Json) -> (r: Vec<EpgProgram>)
    ensures
        program_views(r@) == listings(*v),
{
    let mut out: Vec<EpgProgram> = Vec::new();
    match v.get("epg_listings") {
        Some(Json::List(l)) => {
            let mut i: usize = 0;
            while i < l.len()
                invariant
                    i <= l@.len(),
                    out@.len() == i,
                    forall|j: int| 0 <= j < i ==> (#[trigger] out@[j])@ == program(l@[j]),
                decreases l@.len() - i,
            {
                out.push(parse_epg_program(&l[i]));
                i = i + 1;
            }
        },
        _ => {},
    }
    proof {
        assert(program_views(out@) =~= listings(*v));
    }
    out
}

// --- What is promised of it -------------------------------------------------------------------

proof fn lemma_decimal_signed(n: nat)
    requires
        n <= i64::MAX,
    ensures
        parse_i64(decimal(n)) == Some(n as i64),
{
    lemma_decimal_round_trip(n);
    assert(digit(decimal(n)[0]));
}

/// A programme starts at the seconds in `start_timestamp` and ends at those in `stop_timestamp`,
/// numbers or texts of them, whatever the other members say.
pub proof fn law_programmes_run_from_start_to_stop(p: Json, n: u64)
    requires
        n <= 253402300799,
    ensures
        p.field("start_timestamp"@) == Some(Json::Number(Some(n))) ==> program(p).start == Some(
            Moment { nanos: (n * 1000000000) as i128, offset: 0 },
        ),
        p.field("stop_timestamp"@) == Some(Json::Number(Some(n))) ==> program(p).end == Some(
            Moment { nanos: (n * 1000000000) as i128, offset: 0 },
        ),
        p.field_text("start_timestamp"@) == Some(decimal(n as nat)) ==> program(p).start == Some(
            Moment { nanos: (n * 1000000000) as i128, offset: 0 },
        ),
        p.field_text("stop_timestamp"@) == Some(decimal(n as nat)) ==> program(p).end == Some(
            Moment { nanos: (n * 1000000000) as i128, offset: 0 },
        ),
{
    lemma_decimal_signed(n as nat);
}

/// Programmes that stop at different times have different ends, and the same start where they
/// start alike.
pub proof fn law_stops_make_ends(p: Json, q: Json, n: u64, m: u64)
    requires
        p.field("stop_timestamp"@) == Some(Json::Number(Some(n))),
        q.field("stop_timestamp"@) == Some(Json::Number(Some(m))),
        p.field("start_timestamp"@) == q.field("start_timestamp"@),
        p.field("start"@) == q.field("start"@),
        n < m <= 253402300799,
    ensures
        program(p).start == program(q).start,
        program(p).end matches Some(a) && program(q).end matches Some(b) && b.nanos - a.nanos == (m - n) * 1000000000,
{
}

/// A programme without timestamps goes by the texts in `start` and `end`: by RFC 3339, or else in
/// the plain format, as times of UTC.
pub proof fn law_programmes_without_timestamps(p: Json, start: Seq<char>, end: Seq<char>)
    requires
        p.field("start_timestamp"@) is None,
        p.field("stop_timestamp"@) is None,
        p.field_text("start"@) == Some(start),
        p.field_text("end"@) == Some(end),
    ensures
        rfc3339(start) matches Some(t) ==> program(p).start == Some(Moment { nanos: t.0 as i128, offset: t.1 as i32 }),
        rfc3339(end) matches Some(t) ==> program(p).end == Some(Moment { nanos: t.0 as i128, offset: t.1 as i32 }),
        rfc3339(start) is None ==> (utc_by_format(start, "[year]-[month]-[day] [hour]:[minute]:[second]"@) matches Some(t)
            ==> program(p).start == Some(Moment { nanos: t as i128, offset: 0 })),
        rfc3339(end) is None ==> (utc_by_format(end, "[year]-[month]-[day] [hour]:[minute]:[second]"@) matches Some(t)
            ==> program(p).end == Some(Moment { nanos: t as i128, offset: 0 })),
{
}

/// Title and description are each what its own member holds behind base 64, or the member's own
/// text where that is none, or nothing where there is no such member.
pub proof fn law_programmes_are_told_of(p: Json, t: Seq<char>, b: Seq<u8>)
    requires
        t.len() > 0,
        valid_utf8(b),
    ensures
        p.field_text("title"@) is None ==> program(p).title.len() == 0,
        p.field_text("description"@) is None ==> program(p).description.len() == 0,
        p.field_text("title"@) == Some(t) && base64_padded(t) == Some(b) ==> program(p).title == decode_utf8(b),
        p.field_text("description"@) == Some(t) && base64_padded(t) == Some(b) ==> program(p).description == decode_utf8(b),
        base64_padded(t) is None && base64_unpadded(t) == Some(b) ==> {
            &&& p.field_text("title"@) == Some(t) ==> program(p).title == decode_utf8(b)
            &&& p.field_text("description"@) == Some(t) ==> program(p).description == decode_utf8(b)
        },
        base64_padded(t) is None && base64_unpadded(t) is None ==> {
            &&& p.field_text("title"@) == Some(t) ==> program(p).title == t
            &&& p.field_text("description"@) == Some(t) ==> program(p).description == t
        },
{
}

/// A programme is kept where its member `has_archive` is true, a number above zero or a text of
/// one.
pub proof fn law_kept_programmes_say_so(p: Json, n: u64, yes: bool)
    ensures
        p.field("has_archive"@) is None ==> !program(p).has_archive,
        p.field("has_archive"@) == Some(Json::Bool(yes)) ==> program(p).has_archive == yes,
        p.field("has_archive"@) == Some(Json::Number(Some(n))) ==> program(p).has_archive == (n > 0),
        p.field_text("has_archive"@) == Some(decimal(n as nat)) ==> program(p).has_archive == (n > 0),
{
    lemma_decimal_round_trip(n as nat);
}

/// A listing has a programme for each entry, in its order, and none where it is no list.
pub proof fn law_listings_are_whole(v: Json, l: Vec<Json>, i: int)
    requires
        v.field("epg_listings"@) == Some(Json::List(l)),
        0 <= i < l@.len(),
    ensures
        listings(v).len() == l@.len(),
        listings(v)[i] == program(l@[i]),
{
}

/// An account is let in by a number above zero, by `true`, and by the texts for these; by nothing
/// else.
pub proof fn law_accounts_are_let_in(u: UserInfo)
    ensures
        (u.auth matches Json::Number(Some(n)) && n > 0) ==> u.authenticated(),
        u.auth == Json::Number(Some(0u64)) ==> !u.authenticated(),
        u.auth == Json::Bool(true) ==> u.authenticated(),
        u.auth == Json::Bool(false) ==> !u.authenticated(),
        u.auth == Json::Null ==> !u.authenticated(),
        (u.auth matches Json::Text(s) && (s@ == "1"@ || s@ == "true"@)) ==> u.authenticated(),
        (u.auth matches Json::Text(s) && s@ == "0"@) ==> !u.authenticated(),
{
    reveal_strlit("0");
    reveal_strlit("1");
    reveal_strlit("true");
    assert("0"@[0] == '0' && "1"@[0] == '1');
    if let Json::Text(s) = u.auth {
        assert(s@ == "true"@ ==> ascii_lowercase(s@) =~= "true"@);
        assert(ascii_lowercase(s@).len() == s@.len());
    }
}

/// URLs name the host, the account, and what is asked for: the stream for what is broadcast; minutes,
/// start and stream for a recording; the call and its parameters for the interface.
pub proof fn law_urls_name_what_is_asked_for(
    c: XtreamClient,
    host: Seq<char>,
    id: nat,
    minutes: nat,
    secs: int,
    action: Seq<char>,
    name: String,
    value: String,
)
    requires
        host.len() > 0 && host.last() != '/',
    ensures
        c.live_url(host, id, "m3u8"@) == host + "/live/"@ + c.username@ + "/"@ + c.password@ + "/"@ + decimal(id) + "."@
            + "m3u8"@,
        c.archive_url(host, id, minutes, secs) == host + "/timeshift/"@ + c.username@ + "/"@ + c.password@ + "/"@ + decimal(
            minutes,
        ) + "/"@ + timeshift_stamp(secs) + "/"@ + decimal(id) + ".m3u8"@,
        c.api_url(host, None, Seq::empty()) == host + "/player_api.php?username="@ + encoded(encode_utf8(c.username@))
            + "&password="@ + encoded(encode_utf8(c.password@)),
        c.api_url(host, Some(action), seq![(name, value)]) == host + "/player_api.php?username="@ + encoded(
            encode_utf8(c.username@),
        ) + "&password="@ + encoded(encode_utf8(c.password@)) + "&action="@ + encoded(encode_utf8(action)) + "&"@ + name@
            + "="@ + encoded(encode_utf8(value@)),
{
    reveal_with_fuel(query, 2);
    let p = seq![(name, value)];
    assert(p.drop_last() =~= Seq::empty());
    assert(c.api_url(host, None, Seq::empty()) =~= host + "/player_api.php?username="@ + encoded(encode_utf8(c.username@))
        + "&password="@ + encoded(encode_utf8(c.password@)));
    assert(c.api_url(host, Some(action), p) =~= host + "/player_api.php?username="@ + encoded(encode_utf8(c.username@))
        + "&password="@ + encoded(encode_utf8(c.password@)) + "&action="@ + encoded(encode_utf8(action)) + "&"@ + name@ + "="@
        + encoded(encode_utf8(value@)));
}

/// The stamp of a recording tells year, month, day, hour and minute in this order, with zeros before
/// them where they have fewer digits than their places.
pub proof fn law_stamps_tell_the_minute(secs: int, y: nat, mo: nat, d: nat, h: nat, mi: nat)
    requires
        1000 <= y < 10000,
        0 < mo < 13,
        0 < d < 32,
        h < 24,
        mi < 60,
    ensures
        utc_fields(secs) == (y as int, mo as int, d as int, h as int, mi as int) ==> timeshift_stamp(secs) == decimal(y) + "-"@ + seq![digit_char(mo / 10), digit_char(mo % 10)] + "-"@ + seq![
            digit_char(d / 10),
            digit_char(d % 10),
        ] + ":"@ + seq![digit_char(h / 10), digit_char(h % 10)] + "-"@ + seq![digit_char(mi / 10), digit_char(mi % 10)],
{
    lemma_two_digits(mo);
    lemma_two_digits(d);
    lemma_two_digits(h);
    lemma_two_digits(mi);
    reveal_with_fuel(decimal, 4);
    assert(decimal(y).len() == 4);
}

proof fn lemma_two_digits(n: nat)
    requires
        n < 100,
    ensures
        padded(n, 2) == seq![digit_char(n / 10), digit_char(n % 10)],
{
    reveal_with_fuel(decimal, 2);
    if n < 10 {
        assert(padded(n, 2) =~= seq!['0', digit_char(n)]);
        assert(digit_char(0) == '0');
    } else {
        assert(padded(n, 2) =~= seq![digit_char(n / 10), digit_char(n % 10)]);
    }
}

} // verus!
