//! Playlists on their way to the client: what they point at is fetched through this server.
use dashmap::DashMap;
use vstd::prelude::*;
use vstd::slice::slice_subrange;
use vstd::utf8::{decode_utf8, encode_utf8, valid_utf8};
use crate::clock::span;
use crate::decimal::parse_single;
use crate::outside::{capture_pairs, decode_url_base64, encode_url_base64, from_utf8, get_target, join_url};
use crate::outside::{no_targets, pair_texts, pattern_pairs, put_target, read_url, targets_in, url_base64};
use crate::outside::{url_base64_decoded, url_joined, url_parts, url_safe};
use crate::probe::{extinf, latest, read_extinf};
use crate::single::Single;
use crate::text::{after_last, after_last_char, ascii_alphanumeric, ascii_lowercase, before, before_char, chars_of};
use crate::text::{contains, ends_with, find, find_at, index_of, index_or_len, is_ascii_alphanumeric, is_prefix};
use crate::text::{lemma_find_from, lemma_index_or_len, lines, lines_of, lower_chars, occurs_at, opt_text, owned, push_text};
use crate::text::{law_texts_are_split_at_their_marks, starts_with, str_has};
use crate::text::{same, string_of, texts, trim, trim_chars, trim_end_char, trim_end_matches, trim_end_str};
use crate::text::{trim_end_text, trim_str, views};

verus! {

// --- Looking at playlists -------------------------------------------------------------------

/// The files that providers play where a stream is not to be had.
pub open spec fn filler_files() -> Seq<Seq<char>> {
    seq![
        "black.ts"@,
        "offline.ts"@,
        "no_signal.ts"@,
        "no-signal.ts"@,
        "nosignal.ts"@,
        "notavailable.ts"@,
        "not-available.ts"@,
        "comingsoon.ts"@,
        "coming-soon.ts"@,
        "closed.ts"@,
    ]
}

/// The last component of a reference's path, without query and fragment.
pub open spec fn file_name(reference: Seq<char>) -> Seq<char> {
    after_last(before(before(reference, '?'), '#'), '/')
}

/// The reference names one of those files, in whatever case.
pub open spec fn names_filler(reference: Seq<char>) -> bool {
    filler_files().contains(ascii_lowercase(file_name(reference)))
}

/// A line of a playlist that is a reference: neither empty nor a tag.
pub open spec fn is_reference(line: Seq<char>) -> bool {
    trim(line).len() > 0 && trim(line)[0] != '#'
}

/// The playlist has an end, and some reference of it names a filler. How many segments it has
/// is not asked: the name tells.
pub open spec fn filler_playlist(body: Seq<char>) -> bool {
    contains(body, "#EXT-X-ENDLIST"@) && exists|i: int|
        0 <= i < lines(body).len() && is_reference(#[trigger] lines(body)[i]) && names_filler(trim(lines(body)[i]))
}

fn filler_list() -> (r: Vec<&'static str>)
    ensures
        r@.len() == filler_files().len(),
        forall|i: int| 0 <= i < r@.len() ==> (#[trigger] r@[i])@ == filler_files()[i],
{
    vec![
        "black.ts",
        "offline.ts",
        "no_signal.ts",
        "no-signal.ts",
        "nosignal.ts",
        "notavailable.ts",
        "not-available.ts",
        "comingsoon.ts",
        "coming-soon.ts",
        "closed.ts",
    ]
}

fn is_filler(reference: &[char]) -> (r: bool)
    ensures
        r == names_filler(reference@),
{
    let list = filler_list();
    let name = lower_chars(after_last_char(before_char(before_char(reference, '?'), '#'), '/'));
    let mut k: usize = 0;
    while k < list.len()
        invariant
            k <= list@.len(),
            list@.len() == filler_files().len(),
            forall|i: int| 0 <= i < list@.len() ==> (#[trigger] list@[i])@ == filler_files()[i],
            name@ == ascii_lowercase(file_name(reference@)),
            forall|j: int| 0 <= j < k ==> #[trigger] filler_files()[j] != name@,
        decreases list@.len() - k,
    {
        proof {
            assert(list@[k as int]@ == filler_files()[k as int]);
        }
        if same(&name, &chars_of(list[k])) {
            return true;
        }
        k = k + 1;
    }
    false
}

/// Whether the playlist stands in for a stream that is not to be had.
pub fn looks_like_placeholder_playlist(body: &str) -> (r: bool)
    ensures
        r == filler_playlist(body@),
{
    if !str_has(body, "#EXT-X-ENDLIST") {
        return false;
    }
    let ls = lines_of(&chars_of(body));
    let ghost all = views(ls@);
    let mut i: usize = 0;
    while i < ls.len()
        invariant
            i <= ls@.len(),
            all == views(ls@),
            all == lines(body@),
            contains(body@, "#EXT-X-ENDLIST"@),
            forall|j: int| 0 <= j < i ==> !(is_reference(#[trigger] all[j]) && names_filler(trim(all[j]))),
        decreases ls@.len() - i,
    {
        let t = trim_chars(&ls[i]);
        proof {
            assert(all[i as int] == ls@[i as int]@);
        }
        if t.len() > 0 && t[0] != '#' && is_filler(t) {
            return true;
        }
        i = i + 1;
    }
    false
}

/// The first reference from line `i` on.
pub open spec fn reference_from(ls: Seq<Seq<char>>, i: int) -> Option<Seq<char>>
    decreases ls.len() - i,
{
    if i < 0 || i >= ls.len() {
        None
    } else if is_reference(ls[i]) {
        Some(trim(ls[i]))
    } else {
        reference_from(ls, i + 1)
    }
}

pub fn pick_first_uri_in_playlist(body: &str) -> (r: Option<String>)
    ensures
        opt_text(r) == reference_from(lines(body@), 0),
{
    let ls = lines_of(&chars_of(body));
    let ghost all = views(ls@);
    let mut i: usize = 0;
    while i < ls.len()
        invariant
            i <= ls@.len(),
            all == views(ls@),
            all == lines(body@),
            reference_from(all, 0) == reference_from(all, i as int),
        decreases ls@.len() - i,
    {
        let t = trim_chars(&ls[i]);
        proof {
            assert(all[i as int] == ls@[i as int]@);
        }
        if t.len() > 0 && t[0] != '#' {
            return Some(string_of(t));
        }
        i = i + 1;
    }
    None
}

/// The host is that of a page about abuse.
pub open spec fn abuse_host(host: Option<Seq<char>>) -> bool {
    match host {
        Some(h) => contains(h, "cloudflare-terms-of-service-abuse"@) || contains(h, "abuse"@),
        None => false,
    }
}

/// Whether the host is that of a page about abuse.
pub fn is_abuse_host(host: &Option<String>) -> (r: bool)
    ensures
        r == abuse_host(opt_text(*host)),
{
    match host {
        Some(h) => str_has(h, "cloudflare-terms-of-service-abuse") || str_has(h, "abuse"),
        None => false,
    }
}

/// The URL leads to a page about abuse.
pub open spec fn abuse_url(url: Seq<char>) -> bool {
    match url_parts(url) {
        Some((scheme, host, path)) => abuse_host(host),
        None => false,
    }
}

pub fn is_abuse_url(url: &str) -> (r: bool)
    ensures
        r == abuse_url(url@),
{
    match read_url(url) {
        Some((scheme, host, path)) => is_abuse_host(&host),
        None => false,
    }
}

// --- Playlists that name an audio URL ----------------------------------------------------------

/// An entry of a `.pls` file.
pub const PLS_PATTERN: &'static str = "(?i)^file\\d+\\s*=\\s*(.+)$";

/// The URL in an entry, by what the pattern finds in it.
pub open spec fn pls_entry(found: Seq<(Seq<char>, Seq<char>)>) -> Option<Seq<char>> {
    if found.len() > 0 && starts_with(trim(found[0].0), "http"@) {
        Some(trim(found[0].0))
    } else {
        None
    }
}

/// The URL in an entry, by what the pattern finds in it.
pub fn entry_url(found: &[(String, String)]) -> (r: Option<String>)
    ensures
        opt_text(r) == pls_entry(pair_texts(found@)),
{
    if found.len() == 0 {
        return None;
    }
    proof {
        assert(pair_texts(found@)[0].0 == found@[0].0@);
    }
    let u = trim_str(&found[0].0);
    if is_prefix(&chars_of(&u), "http") {
        Some(u)
    } else {
        None
    }
}

/// The first URL in an entry, from line `i` on.
pub open spec fn pls_from(ls: Seq<Seq<char>>, i: int) -> Option<Seq<char>>
    decreases ls.len() - i,
{
    if i < 0 || i >= ls.len() {
        None
    } else {
        match pls_entry(pattern_pairs(PLS_PATTERN@, trim(ls[i]))) {
            Some(u) => Some(u),
            None => pls_from(ls, i + 1),
        }
    }
}

/// The first line that is a URL, from line `i` on.
pub open spec fn http_from(ls: Seq<Seq<char>>, i: int) -> Option<Seq<char>>
    decreases ls.len() - i,
{
    if i < 0 || i >= ls.len() {
        None
    } else if starts_with(trim(ls[i]), "http"@) {
        Some(trim(ls[i]))
    } else {
        http_from(ls, i + 1)
    }
}

/// The audio URL that a `.pls` or `.m3u` file names: that of the first entry, or else the
/// first line that is one.
pub fn parse_pls_or_m3u(body: &str) -> (r: Option<String>)
    ensures
        opt_text(r) == match pls_from(lines(body@), 0) {
            Some(u) => Some(u),
            None => http_from(lines(body@), 0),
        },
{
    let ls = lines_of(&chars_of(body));
    let ghost all = views(ls@);
    let mut i: usize = 0;
    while i < ls.len()
        invariant
            i <= ls@.len(),
            all == views(ls@),
            all == lines(body@),
            pls_from(all, 0) == pls_from(all, i as int),
        decreases ls@.len() - i,
    {
        proof {
            assert(all[i as int] == ls@[i as int]@);
        }
        let t = string_of(trim_chars(&ls[i]));
        if let Some(u) = entry_url(&capture_pairs(PLS_PATTERN, &t)) {
            return Some(u);
        }
        i = i + 1;
    }
    let mut j: usize = 0;
    while j < ls.len()
        invariant
            j <= ls@.len(),
            all == views(ls@),
            all == lines(body@),
            pls_from(all, 0) is None,
            http_from(all, 0) == http_from(all, j as int),
        decreases ls@.len() - j,
    {
        let t = trim_chars(&ls[j]);
        proof {
            assert(all[j as int] == ls@[j as int]@);
        }
        if is_prefix(t, "http") {
            return Some(string_of(t));
        }
        j = j + 1;
    }
    None
}

/// An hour.
pub const RESOLVED_TTL_NANOS: u64 = 3600000000000;

/// The audio URLs behind playlist URLs, for an hour each.
pub struct ResolverCache {
    map: DashMap<String, (String, u64)>,
}

impl View for ResolverCache {
    type V = Map<Seq<char>, (Seq<char>, u64)>;

    closed spec fn view(&self) -> Map<Seq<char>, (Seq<char>, u64)> {
        targets_in(self.map)
    }
}

/// The audio URL that was found less than an hour ago.
pub open spec fn resolved_url(m: Map<Seq<char>, (Seq<char>, u64)>, url: Seq<char>, now: u64) -> Option<Seq<char>> {
    if m.contains_key(url) && span(now, m[url].1) < RESOLVED_TTL_NANOS {
        Some(m[url].0)
    } else {
        None
    }
}

impl ResolverCache {
    pub fn new() -> (r: Self)
        ensures
            r@ == Map::<Seq<char>, (Seq<char>, u64)>::empty(),
    {
        let r = ResolverCache { map: no_targets() };
        proof {
            assert(r@ =~= Map::<Seq<char>, (Seq<char>, u64)>::empty());
        }
        r
    }

    /// The audio URL behind a playlist URL, where it was found less than an hour ago.
    pub fn get(&self, url: &str, now: u64) -> (r: Option<String>)
        ensures
            opt_text(r) == resolved_url(self@, url@, now),
    {
        match get_target(&self.map, url) {
            Some((u, at)) => {
                let age: u64 = if now >= at {
                    now - at
                } else {
                    0
                };
                if age < RESOLVED_TTL_NANOS {
                    Some(u)
                } else {
                    None
                }
            },
            None => None,
        }
    }

    /// Takes what was fetched from a playlist URL: the audio URL in it, if there is one.
    pub fn resolve(&mut self, url: &str, body: &str, now: u64) -> (r: Option<String>)
        ensures
            ({
                let found = match pls_from(lines(body@), 0) {
                    Some(u) => Some(u),
                    None => http_from(lines(body@), 0),
                };
                &&& opt_text(r) == found
                &&& final(self)@ == match found {
                    Some(u) => old(self)@.insert(url@, (u, now)),
                    None => old(self)@,
                }
            }),
    {
        match parse_pls_or_m3u(body) {
            Some(u) => {
                put_target(&mut self.map, owned(url), u.clone(), now);
                Some(u)
            },
            None => None,
        }
    }
}

// --- Segment tokens ------------------------------------------------------------------------------

/// What a segment URL of this server carries.
#[derive(Debug)]
pub struct SegmentToken {
    /// The URL to fetch.
    pub u: String,
    /// The URL of the playlist that it came from.
    pub p: Option<String>,
    /// The key of the channel.
    pub c: Option<String>,
    /// Nothing is to be noted of how it goes.
    pub probe: bool,
    /// How many seconds it plays.
    pub d: Option<Single>,
    /// The host that served the playlist.
    pub h: Option<String>,
    /// The client puts up with DVB subtitles.
    pub dvb_safe: bool,
}

/// The contents of a `SegmentToken`.
pub struct TokenView {
    pub u: Seq<char>,
    pub p: Option<Seq<char>>,
    pub c: Option<Seq<char>>,
    pub probe: bool,
    pub d: Option<Single>,
    pub h: Option<Seq<char>>,
    pub dvb_safe: bool,
}

impl View for SegmentToken {
    type V = TokenView;

    open spec fn view(&self) -> TokenView {
        TokenView {
            u: self.u@,
            p: opt_text(self.p),
            c: opt_text(self.c),
            probe: self.probe,
            d: self.d,
            h: opt_text(self.h),
            dvb_safe: self.dvb_safe,
        }
    }
}

/// What all segment URLs of one playlist carry.
#[derive(Debug, Clone, Copy)]
pub struct RewriteCtx<'a> {
    pub channel_key: &'a str,
    pub source_url: &'a str,
    pub track_failures: bool,
    pub upstream_host: Option<&'a str>,
    pub client_has_dvb_safe: bool,
}

impl<'a> RewriteCtx<'a> {
    /// The token for a URL.
    pub open spec fn token(self, url: Seq<char>, duration: Option<Single>) -> TokenView {
        TokenView {
            u: url,
            p: Some(self.source_url@),
            c: Some(self.channel_key@),
            probe: !self.track_failures,
            d: duration,
            h: match self.upstream_host {
                Some(h) => Some(h@),
                None => None,
            },
            dvb_safe: self.client_has_dvb_safe,
        }
    }

    pub fn token_for(&self, url: String, duration: Option<Single>) -> (r: SegmentToken)
        ensures
            r@ == self.token(url@, duration),
    {
        SegmentToken {
            u: url,
            p: Some(owned(self.source_url)),
            c: Some(owned(self.channel_key)),
            probe: !self.track_failures,
            d: duration,
            h: match self.upstream_host {
                Some(h) => Some(owned(h)),
                None => None,
            },
            dvb_safe: self.client_has_dvb_safe,
        }
    }
}

/// The letters and digits that a text starts with.
pub open spec fn leading_alphanumerics(s: Seq<char>) -> Seq<char>
    decreases s.len(),
{
    if s.len() == 0 || !ascii_alphanumeric(s[0]) {
        Seq::empty()
    } else {
        seq![s[0]] + leading_alphanumerics(s.drop_first())
    }
}

/// The ending of the file that a URL names, in lower case.
pub open spec fn url_ending(url: Seq<char>) -> Option<Seq<char>> {
    let file = after_last(before(url, '?'), '/');
    let ending = leading_alphanumerics(after_last(file, '.'));
    if file.contains('.') && ending.len() > 0 {
        Some(ascii_lowercase(ending))
    } else {
        None
    }
}

fn leading_part(s: &[char]) -> (r: Vec<char>)
    ensures
        r@ == leading_alphanumerics(s@),
{
    let mut out: Vec<char> = Vec::new();
    let mut i: usize = 0;
    proof {
        assert(s@.skip(0) =~= s@);
        assert(out@ + leading_alphanumerics(s@) =~= leading_alphanumerics(s@));
    }
    while i < s.len() && is_ascii_alphanumeric(s[i])
        invariant
            i <= s@.len(),
            out@ + leading_alphanumerics(s@.skip(i as int)) == leading_alphanumerics(s@),
        decreases s@.len() - i,
    {
        let ghost was = out@;
        out.push(s[i]);
        proof {
            let t = s@.skip(i as int);
            assert(t.drop_first() =~= s@.skip(i + 1));
            assert(was + (seq![t[0]] + leading_alphanumerics(s@.skip(i + 1))) =~= was.push(t[0]) + leading_alphanumerics(
                s@.skip(i + 1),
            ));
        }
        i = i + 1;
    }
    proof {
        assert(leading_alphanumerics(s@.skip(i as int)) =~= Seq::empty());
        assert(out@ =~= leading_alphanumerics(s@));
    }
    out
}

/// The ending of the file that a URL names, in lower case.
pub fn upstream_ext(url: &str) -> (r: Option<String>)
    ensures
        opt_text(r) == url_ending(url@),
{
    let a = chars_of(url);
    let file = after_last_char(before_char(&a, '?'), '/');
    proof {
        lemma_index_or_len(file@, '.');
        assert(file@.skip(0) =~= file@);
    }
    let i = index_of(file, '.', 0);
    if i >= file.len() {
        proof {
            if file@.contains('.') {
                let k = choose|k: int| 0 <= k < file@.len() && file@[k] == '.';
                assert(file@[k] != '.');
            }
        }
        return None;
    }
    proof {
        assert(file@[i as int] == '.');
        assert(file@.contains('.'));
    }
    let ending = leading_part(after_last_char(file, '.'));
    if ending.len() == 0 {
        None
    } else {
        Some(string_of(&lower_chars(&ending)))
    }
}

/// The ending of a segment URL of this server.
pub open spec fn ending_or_ts(url: Seq<char>) -> Seq<char> {
    match url_ending(url) {
        Some(e) => e,
        None => "ts"@,
    }
}

/// The URL under which this server serves `url`, for a token that is written `payload`. Slashes at
/// the end of the base are left out.
pub open spec fn segment_url(public_base: Seq<char>, url: Seq<char>, payload: Seq<char>) -> Seq<char> {
    trim_end_char(public_base, '/') + "/seg/"@ + url_base64(encode_utf8(payload)) + "."@ + ending_or_ts(url)
}

/// The URL under which this server serves `absolute_upstream`, for a token that is written
/// `payload`.
pub fn proxy_url(public_base: &str, absolute_upstream: &str, payload: &str) -> (r: String)
    ensures
        r@ == segment_url(public_base@, absolute_upstream@, payload@),
        url_base64_decoded(url_base64(encode_utf8(payload@))) == Some(encode_utf8(payload@)),
        forall|i: int|
            0 <= i < url_base64(encode_utf8(payload@)).len() ==> url_safe(#[trigger] url_base64(encode_utf8(payload@))[i]),
{
    let mut s = trim_end_matches(public_base, '/');
    push_text(&mut s, "/seg/");
    push_text(&mut s, &encode_url_base64(payload.as_bytes()));
    push_text(&mut s, ".");
    match upstream_ext(absolute_upstream) {
        Some(e) => {
            push_text(&mut s, &e);
        },
        None => {
            push_text(&mut s, "ts");
        },
    }
    s
}

/// The base64 part of the last part of a segment URL: without a query and without the
/// endings that segments have.
pub open spec fn stripped_token(token: Seq<char>) -> Seq<char> {
    let a = before(token, '?');
    let b = trim_end_text(a, ".ts"@);
    let c = trim_end_text(b, ".m4s"@);
    let d = trim_end_text(c, ".m3u8"@);
    let e = trim_end_text(d, ".aac"@);
    trim_end_text(e, ".mp3"@)
}

/// Why a segment URL is refused.
#[derive(Debug, Clone, Copy, PartialEq, Eq, Structural)]
pub enum SegmentError {
    /// It is no base64.
    BadToken,
    /// It holds neither a token nor a text.
    BadText,
}

impl SegmentError {
    pub fn message(&self) -> (r: &'static str)
        ensures
            r@ == match *self {
                SegmentError::BadToken => "bad segment token"@,
                SegmentError::BadText => "bad segment token (utf8)"@,
            },
    {
        match self {
            SegmentError::BadToken => "bad segment token",
            SegmentError::BadText => "bad segment token (utf8)",
        }
    }
}

/// What the last part of a segment URL holds.
pub fn segment_payload(token: &str) -> (r: Result<Vec<u8>, SegmentError>)
    ensures
        match r {
            Ok(v) => url_base64_decoded(stripped_token(token@)) == Some(v@),
            Err(e) => e == SegmentError::BadToken && url_base64_decoded(stripped_token(token@)) is None,
        },
{
    let a = chars_of(token);
    let b = trim_end_str(before_char(&a, '?'), ".ts");
    let c = trim_end_str(&b, ".m4s");
    let d = trim_end_str(&c, ".m3u8");
    let e = trim_end_str(&d, ".aac");
    let f = trim_end_str(&e, ".mp3");
    match decode_url_base64(&string_of(&f)) {
        Some(v) => Ok(v),
        None => Err(SegmentError::BadToken),
    }
}

/// The token in a payload, by what reading it as one gave: that, where it names a URL; or else
/// the payload itself as a URL.
pub open spec fn decoded_token(payload: Seq<u8>, parsed: Option<TokenView>) -> Option<TokenView> {
    match parsed {
        Some(t) if t.u.len() > 0 => Some(t),
        _ => if valid_utf8(payload) {
            Some(
                TokenView {
                    u: decode_utf8(payload),
                    p: None,
                    c: None,
                    probe: false,
                    d: None,
                    h: None,
                    dvb_safe: false,
                },
            )
        } else {
            None
        },
    }
}

/// The token in a payload, by what reading it as one gave.
pub fn decode_segment_token(payload: Vec<u8>, parsed: Option<SegmentToken>) -> (r: Result<SegmentToken, SegmentError>)
    ensures
        ({
            let t = decoded_token(
                payload@,
                match parsed {
                    Some(t) => Some(t@),
                    None => None,
                },
            );
            match r {
                Ok(s) => t == Some(s@),
                Err(e) => e == SegmentError::BadText && t is None,
            }
        }),
{
    if let Some(t) = parsed {
        if !t.u.as_str().is_empty() {
            return Ok(t);
        }
    }
    match from_utf8(payload) {
        Some(u) => Ok(SegmentToken { u, p: None, c: None, probe: false, d: None, h: None, dvb_safe: false }),
        None => Err(SegmentError::BadText),
    }
}

// --- Rewriting -------------------------------------------------------------------------------------

/// A piece of a rewritten playlist.
#[derive(Debug)]
pub enum Piece {
    /// As it is.
    Text(String),
    /// The URL of this server that carries the token.
    Link(SegmentToken),
}

/// The contents of a `Piece`.
pub enum PieceView {
    Text(Seq<char>),
    Link(TokenView),
}

impl View for Piece {
    type V = PieceView;

    open spec fn view(&self) -> PieceView {
        match self {
            Piece::Text(s) => PieceView::Text(s@),
            Piece::Link(t) => PieceView::Link(t@),
        }
    }
}

/// The contents of each piece.
pub open spec fn piece_views(v: Seq<Piece>) -> Seq<PieceView> {
    v.map_values(|p: Piece| p@)
}

/// Where the URI in a tag starts and ends.
pub open spec fn tag_uri(line: Seq<char>) -> Option<(int, int)> {
    match find(line, "URI=\""@) {
        Some(i) => {
            let end = i + 5 + index_or_len(line.skip(i + 5), '"');
            if end < line.len() {
                Some((i + 5, end))
            } else {
                None
            }
        },
        None => None,
    }
}

/// A tag rewritten: the URI in it, where there is one, goes through this server.
pub open spec fn tag_pieces(line: Seq<char>, base: Seq<char>, ctx: RewriteCtx) -> Option<Seq<PieceView>> {
    match tag_uri(line) {
        Some((start, end)) => match url_joined(base, line.subrange(start, end)) {
            Some(u) => Some(
                seq![
                    PieceView::Text(line.take(start)),
                    PieceView::Link(ctx.token(u, None)),
                    PieceView::Text(line.skip(end)),
                    PieceView::Text("\n"@),
                ],
            ),
            None => None,
        },
        None => None,
    }
}

/// A line as it is.
pub open spec fn plain_line(line: Seq<char>) -> Seq<PieceView> {
    seq![PieceView::Text(line), PieceView::Text("\n"@)]
}

/// The playlist rewritten from line `i` on, behind a duration that was announced: tags keep
/// their place, references go through this server, and each reference takes the last
/// duration announced before it.
pub open spec fn rewritten_from(ls: Seq<Seq<char>>, i: int, pending: Option<Single>, base: Seq<char>, ctx: RewriteCtx) -> Seq<
    PieceView,
>
    decreases ls.len() - i,
{
    if i < 0 || i >= ls.len() {
        Seq::empty()
    } else {
        let t = trim(ls[i]);
        if t.len() == 0 {
            seq![PieceView::Text("\n"@)] + rewritten_from(ls, i + 1, pending, base, ctx)
        } else if t[0] == '#' {
            (match tag_pieces(t, base, ctx) {
                Some(p) => p,
                None => plain_line(ls[i]),
            }) + rewritten_from(ls, i + 1, latest(pending, extinf(t)), base, ctx)
        } else {
            match url_joined(base, t) {
                Some(u) => seq![PieceView::Link(ctx.token(u, pending)), PieceView::Text("\n"@)] + rewritten_from(
                    ls,
                    i + 1,
                    None,
                    base,
                    ctx,
                ),
                None => plain_line(ls[i]) + rewritten_from(ls, i + 1, pending, base, ctx),
            }
        }
    }
}

fn push_piece(out: &mut Vec<Piece>, p: Piece)
    ensures
        piece_views(final(out)@) == piece_views(old(out)@).push(p@),
{
    let ghost was = out@;
    out.push(p);
    proof {
        assert(piece_views(out@) =~= piece_views(was).push(p@));
    }
}

/// Adds a tag whose URI goes through this server; a tag without one is left to the caller.
fn rewrite_tag_with_uri(out: &mut Vec<Piece>, line: &[char], base: &str, ctx: &RewriteCtx<'_>) -> (r: bool)
    ensures
        match tag_pieces(line@, base@, *ctx) {
            Some(p) => r && piece_views(final(out)@) == piece_views(old(out)@) + p,
            None => !r && piece_views(final(out)@) == piece_views(old(out)@),
        },
{
    let ghost was = piece_views(out@);
    proof {
        reveal_strlit("URI=\"");
        assert(line@.len() == line.len());
    }
    let i: usize = match find_at(line, &chars_of("URI=\""), 0) {
        Some(i) => i,
        None => {
            return false;
        },
    };
    let start: usize = i + 5;
    let end = index_of(line, '"', start);
    if end >= line.len() {
        return false;
    }
    let raw = string_of(slice_subrange(line, start, end));
    match join_url(base, &raw) {
        Some(u) => {
            let head = string_of(slice_subrange(line, 0, start));
            let tail = string_of(slice_subrange(line, end, line.len()));
            proof {
                assert(head@ =~= line@.take(start as int));
                assert(tail@ =~= line@.skip(end as int));
            }
            push_piece(out, Piece::Text(head));
            push_piece(out, Piece::Link(ctx.token_for(u, None)));
            push_piece(out, Piece::Text(tail));
            push_piece(out, Piece::Text(owned("\n")));
            proof {
                assert(piece_views(out@) =~= was + tag_pieces(line@, base@, *ctx)->0);
            }
            true
        },
        None => false,
    }
}

/// The pieces of a rewritten playlist that was fetched from `playlist_url`.
pub fn rewrite_playlist(body: &str, playlist_url: &str, ctx: RewriteCtx<'_>) -> (r: Vec<Piece>)
    ensures
        piece_views(r@) == rewritten_from(lines(body@), 0, None, playlist_url@, ctx),
{
    let ls = lines_of(&chars_of(body));
    let ghost all = views(ls@);
    let ghost base = playlist_url@;
    let mut out: Vec<Piece> = Vec::new();
    let mut pending: Option<Single> = None;
    let mut i: usize = 0;
    proof {
        assert(piece_views(out@) + rewritten_from(all, 0, None, base, ctx) =~= rewritten_from(all, 0, None, base, ctx));
    }
    while i < ls.len()
        invariant
            i <= ls@.len(),
            all == views(ls@),
            all == lines(body@),
            base == playlist_url@,
            piece_views(out@) + rewritten_from(all, i as int, pending, base, ctx) == rewritten_from(all, 0, None, base, ctx),
        decreases ls@.len() - i,
    {
        let line = &ls[i];
        let t = trim_chars(line);
        let ghost was = piece_views(out@);
        let ghost before = pending;
        proof {
            assert(all[i as int] == line@);
        }
        if t.len() == 0 {
            push_piece(&mut out, Piece::Text(owned("\n")));
            proof {
                assert(piece_views(out@) =~= was + seq![PieceView::Text("\n"@)]);
            }
        } else if t[0] == '#' {
            if let Some(d) = read_extinf(t) {
                pending = Some(d);
            }
            if !rewrite_tag_with_uri(&mut out, t, playlist_url, &ctx) {
                push_piece(&mut out, Piece::Text(string_of(line)));
                push_piece(&mut out, Piece::Text(owned("\n")));
                proof {
                    assert(piece_views(out@) =~= was + plain_line(line@));
                }
            }
        } else {
            match join_url(playlist_url, &string_of(t)) {
                Some(u) => {
                    push_piece(&mut out, Piece::Link(ctx.token_for(u, pending)));
                    push_piece(&mut out, Piece::Text(owned("\n")));
                    proof {
                        assert(piece_views(out@) =~= was + seq![
                            PieceView::Link(ctx.token(u@, pending)),
                            PieceView::Text("\n"@),
                        ]);
                    }
                    pending = None;
                },
                None => {
                    push_piece(&mut out, Piece::Text(string_of(line)));
                    push_piece(&mut out, Piece::Text(owned("\n")));
                    proof {
                        assert(piece_views(out@) =~= was + plain_line(line@));
                    }
                },
            }
        }
        proof {
            let whole = rewritten_from(all, i as int, before, base, ctx);
            let rest = rewritten_from(all, i + 1, pending, base, ctx);
            let part = piece_views(out@).skip(was.len() as int);
            assert(piece_views(out@) =~= was + part);
            assert(whole =~= part + rest);
            assert(was + (part + rest) =~= (was + part) + rest);
        }
        i = i + 1;
    }
    proof {
        assert(rewritten_from(all, i as int, pending, base, ctx) =~= Seq::empty());
        assert(piece_views(out@) =~= rewritten_from(all, 0, None, base, ctx));
    }
    out
}

/// How many links the pieces hold.
pub open spec fn link_count(s: Seq<PieceView>) -> nat
    decreases s.len(),
{
    if s.len() == 0 {
        0
    } else {
        link_count(s.drop_last()) + if s.last() is Link {
            1nat
        } else {
            0
        }
    }
}

/// The text of the pieces, with the URLs in the place of the links.
pub open spec fn assembled(s: Seq<PieceView>, urls: Seq<Seq<char>>) -> Seq<char>
    decreases s.len(),
{
    if s.len() == 0 {
        Seq::empty()
    } else {
        assembled(s.drop_last(), urls) + match s.last() {
            PieceView::Text(t) => t,
            PieceView::Link(t) => urls[link_count(s.drop_last()) as int],
        }
    }
}

/// The text of a rewritten playlist, with a URL for each link. None where there are not as
/// many URLs as links.
pub fn assemble(pieces: &[Piece], urls: &[String]) -> (r: Option<String>)
    ensures
        match r {
            Some(s) => urls@.len() == link_count(piece_views(pieces@)) && s@ == assembled(
                piece_views(pieces@),
                texts(urls@),
            ),
            None => urls@.len() != link_count(piece_views(pieces@)),
        },
{
    let ghost vs = piece_views(pieces@);
    let mut n: usize = 0;
    let mut i: usize = 0;
    while i < pieces.len()
        invariant
            i <= pieces@.len(),
            vs == piece_views(pieces@),
            n <= i,
            n == link_count(vs.take(i as int)),
        decreases pieces@.len() - i,
    {
        proof {
            assert(vs.take(i + 1).drop_last() =~= vs.take(i as int));
            assert(vs.take(i + 1).last() == pieces@[i as int]@);
        }
        match &pieces[i] {
            Piece::Link(_) => {
                n = n + 1;
            },
            Piece::Text(_) => {},
        }
        i = i + 1;
    }
    proof {
        assert(vs.take(i as int) =~= vs);
    }
    if n != urls.len() {
        return None;
    }
    let mut out = String::new();
    let mut k: usize = 0;
    let mut j: usize = 0;
    proof {
        assert(out@ =~= assembled(vs.take(0), texts(urls@)));
    }
    while j < pieces.len()
        invariant
            j <= pieces@.len(),
            vs == piece_views(pieces@),
            urls@.len() == link_count(vs),
            k <= j,
            k == link_count(vs.take(j as int)),
            out@ == assembled(vs.take(j as int), texts(urls@)),
        decreases pieces@.len() - j,
    {
        proof {
            assert(vs.take(j + 1).drop_last() =~= vs.take(j as int));
            assert(vs.take(j + 1).last() == pieces@[j as int]@);
            lemma_link_count(vs, j + 1);
        }
        match &pieces[j] {
            Piece::Link(_) => {
                proof {
                    assert(texts(urls@)[k as int] == urls@[k as int]@);
                }
                push_text(&mut out, &urls[k]);
                k = k + 1;
            },
            Piece::Text(t) => {
                push_text(&mut out, t);
            },
        }
        j = j + 1;
    }
    proof {
        assert(vs.take(j as int) =~= vs);
    }
    Some(out)
}

proof fn lemma_link_count(s: Seq<PieceView>, n: int)
    requires
        0 <= n <= s.len(),
    ensures
        link_count(s.take(n)) <= link_count(s),
    decreases s.len() - n,
{
    if n < s.len() {
        lemma_link_count(s, n + 1);
        assert(s.take(n + 1).drop_last() =~= s.take(n));
    } else {
        assert(s.take(n) =~= s);
    }
}

// --- What is promised of it ---------------------------------------------------------------------------

/// A text without the character ends before none.
proof fn lemma_before_none(s: Seq<char>, c: char)
    requires
        forall|i: int| 0 <= i < s.len() ==> s[i] != c,
    ensures
        before(s, c) == s,
{
    lemma_index_or_len(s, c);
    assert(index_or_len(s, c) == s.len());
    assert(before(s, c) =~= s);
}

/// A text without a point ends with nothing that starts with one.
proof fn lemma_no_ending(s: Seq<char>, pat: Seq<char>)
    requires
        forall|i: int| 0 <= i < s.len() ==> url_safe(#[trigger] s[i]),
        pat.len() > 0,
        pat[0] == '.',
    ensures
        trim_end_text(s, pat) == s,
{
    if ends_with(s, pat) {
        let k = s.len() - pat.len();
        assert(s.subrange(k, k + pat.len())[0] == s[k]);
        assert(url_safe(s[k]));
    }
}

/// Trimming one ending off, behind a text without a point.
proof fn lemma_one_ending(s: Seq<char>, pat: Seq<char>)
    requires
        forall|i: int| 0 <= i < s.len() ==> url_safe(#[trigger] s[i]),
        pat.len() > 0,
        pat[0] == '.',
    ensures
        trim_end_text(s + pat, pat) == s,
{
    let t = s + pat;
    assert(t.subrange(t.len() - pat.len(), t.len() as int) =~= pat);
    assert(ends_with(t, pat));
    assert(t.take(t.len() - pat.len()) =~= s);
    lemma_no_ending(s, pat);
}

/// An ending that differs in its last character, or in the one before, is left alone.
proof fn lemma_other_ending(s: Seq<char>, end: Seq<char>, pat: Seq<char>)
    requires
        end.len() >= 3,
        pat.len() >= 3,
        end[end.len() - 1] != pat[pat.len() - 1] || end[end.len() - 2] != pat[pat.len() - 2] || end[end.len() - 3]
            != pat[pat.len() - 3],
    ensures
        trim_end_text(s + end, pat) == s + end,
{
    let t = s + end;
    if ends_with(t, pat) {
        let k = t.len() - pat.len();
        let sub = t.subrange(k, k + pat.len());
        assert(sub[pat.len() - 1] == t[t.len() - 1] && t[t.len() - 1] == end[end.len() - 1]);
        assert(sub[pat.len() - 2] == t[t.len() - 2] && t[t.len() - 2] == end[end.len() - 2]);
        assert(sub[pat.len() - 3] == t[t.len() - 3] && t[t.len() - 3] == end[end.len() - 3]);
    }
}

/// The endings that segment URLs lose again.
pub open spec fn known_ending(e: Seq<char>) -> bool {
    e == "ts"@ || e == "m4s"@ || e == "m3u8"@ || e == "aac"@ || e == "mp3"@
}

/// What a segment URL with one of the known endings carries is found in it again, with or
/// without a query behind it.
pub proof fn law_segment_url_comes_back(payload: Seq<char>, ending: Seq<char>, query: Seq<char>)
    requires
        forall|i: int| 0 <= i < payload.len() ==> url_safe(#[trigger] payload[i]),
        known_ending(ending),
        query.len() == 0 || query[0] == '?',
    ensures
        stripped_token(payload + "."@ + ending + query) == payload,
{
    reveal_strlit(".");
    reveal_strlit("ts");
    reveal_strlit("m4s");
    reveal_strlit("m3u8");
    reveal_strlit("aac");
    reveal_strlit("mp3");
    reveal_strlit(".ts");
    reveal_strlit(".m4s");
    reveal_strlit(".m3u8");
    reveal_strlit(".aac");
    reveal_strlit(".mp3");
    let end = "."@ + ending;
    let t = payload + "."@ + ending;
    let whole = t + query;
    assert(t =~= payload + end);
    assert(before(whole, '?') == t) by {
        lemma_index_or_len(whole, '?');
        let i = index_or_len(whole, '?');
        assert(forall|k: int| 0 <= k < t.len() ==> whole[k] == t[k] && t[k] != '?') by {
            assert forall|k: int| 0 <= k < t.len() implies whole[k] == t[k] && t[k] != '?' by {
                if k < payload.len() {
                    assert(url_safe(payload[k]));
                } else {
                    assert(t[k] == end[k - payload.len()]);
                }
            }
        }
        if query.len() == 0 {
            assert(whole =~= t);
            lemma_before_none(t, '?');
        } else {
            assert(whole[t.len() as int] == '?');
            assert(i == t.len());
            assert(whole.take(i) =~= t);
        }
    }
    if ending == "ts"@ {
        assert(end =~= ".ts"@);
        lemma_one_ending(payload, ".ts"@);
        lemma_no_ending(payload, ".m4s"@);
        lemma_no_ending(payload, ".m3u8"@);
        lemma_no_ending(payload, ".aac"@);
        lemma_no_ending(payload, ".mp3"@);
    } else if ending == "m4s"@ {
        assert(end =~= ".m4s"@);
        lemma_other_ending(payload, end, ".ts"@);
        lemma_one_ending(payload, ".m4s"@);
        lemma_no_ending(payload, ".m3u8"@);
        lemma_no_ending(payload, ".aac"@);
        lemma_no_ending(payload, ".mp3"@);
    } else if ending == "m3u8"@ {
        assert(end =~= ".m3u8"@);
        lemma_other_ending(payload, end, ".ts"@);
        lemma_other_ending(payload, end, ".m4s"@);
        lemma_one_ending(payload, ".m3u8"@);
        lemma_no_ending(payload, ".aac"@);
        lemma_no_ending(payload, ".mp3"@);
    } else if ending == "aac"@ {
        assert(end =~= ".aac"@);
        lemma_other_ending(payload, end, ".ts"@);
        lemma_other_ending(payload, end, ".m4s"@);
        lemma_other_ending(payload, end, ".m3u8"@);
        lemma_one_ending(payload, ".aac"@);
        lemma_no_ending(payload, ".mp3"@);
    } else {
        assert(end =~= ".mp3"@);
        lemma_other_ending(payload, end, ".ts"@);
        lemma_other_ending(payload, end, ".m4s"@);
        lemma_other_ending(payload, end, ".m3u8"@);
        lemma_other_ending(payload, end, ".aac"@);
        lemma_one_ending(payload, ".mp3"@);
    }
}

/// The token is one of the playlist's: it names its source, its channel and its host, is a probe's
/// where failures do not count, and says whether the client puts up with DVB subtitles.
pub open spec fn carries_context(t: TokenView, ctx: RewriteCtx) -> bool {
    &&& t.p == Some(ctx.source_url@)
    &&& t.c == Some(ctx.channel_key@)
    &&& t.probe == !ctx.track_failures
    &&& ctx.upstream_host is None ==> t.h is None
    &&& ctx.upstream_host matches Some(h) ==> t.h == Some(h@)
    &&& t.dvb_safe == ctx.client_has_dvb_safe
}

/// The tag holds the URI `uri`: it stands between the first `URI="`, at `at`, and the next quote.
pub open spec fn tag_holds(line: Seq<char>, at: int, uri: Seq<char>) -> bool {
    &&& line.len() > 0
    &&& line[0] == '#'
    &&& 0 <= at
    &&& at + 5 + uri.len() < line.len()
    &&& line.subrange(at, at + 5) == "URI=\""@
    &&& forall|j: int| 0 <= j < at ==> #[trigger] line.subrange(j, j + 5) != "URI=\""@
    &&& line.subrange(at + 5, at + 5 + uri.len()) == uri
    &&& forall|j: int| 0 <= j < uri.len() ==> uri[j] != '"'
    &&& line[at + 5 + uri.len()] == '"'
}

/// What a line of a playlist leads to: a tag to its URI, another line to itself, each as seen from
/// the playlist's own URL.
pub open spec fn leads_to(line: Seq<char>, base: Seq<char>, url: Seq<char>) -> bool {
    let t = trim(line);
    &&& t.len() > 0
    &&& if t[0] == '#' {
        exists|at: int, uri: Seq<char>| #[trigger] tag_holds(t, at, uri) && url_joined(base, uri) == Some(url)
    } else {
        url_joined(base, t) == Some(url)
    }
}

/// The line leads somewhere.
pub open spec fn leads_on(line: Seq<char>, base: Seq<char>) -> bool {
    exists|url: Seq<char>| leads_to(line, base, url)
}

/// How many of the lines lead somewhere.
pub open spec fn leading(ls: Seq<Seq<char>>, base: Seq<char>) -> nat
    decreases ls.len(),
{
    if ls.len() == 0 {
        0
    } else {
        leading(ls.drop_first(), base) + if leads_on(ls[0], base) {
            1nat
        } else {
            0
        }
    }
}

proof fn lemma_tag_uri(line: Seq<char>, at: int, uri: Seq<char>)
    requires
        tag_holds(line, at, uri),
    ensures
        tag_uri(line) == Some((at + 5, (at + 5 + uri.len()) as int)),
        line.subrange(at + 5, at + 5 + uri.len()) == uri,
{
    reveal_strlit("URI=\"");
    let pat = "URI=\""@;
    lemma_find_from(line, pat, 0);
    assert(occurs_at(line, pat, at));
    match find(line, pat) {
        Some(i) => {
            if i < at {
                assert(line.subrange(i, i + 5) == pat);
            }
            assert(i == at);
        },
        None => {},
    }
    let rest = line.skip(at + 5);
    lemma_index_or_len(rest, '"');
    let k = index_or_len(rest, '"');
    assert(rest[uri.len() as int] == '"');
    if k < uri.len() {
        assert(rest[k] == uri[k]) by {
            assert(line.subrange(at + 5, at + 5 + uri.len())[k] == line[at + 5 + k]);
        }
    }
}

proof fn lemma_tag_uri_back(line: Seq<char>)
    requires
        line.len() > 0,
        line[0] == '#',
        tag_uri(line) is Some,
    ensures
        ({
            let (s, e) = tag_uri(line)->0;
            tag_holds(line, s - 5, line.subrange(s, e))
        }),
{
    reveal_strlit("URI=\"");
    let pat = "URI=\""@;
    lemma_find_from(line, pat, 0);
    let (s, e) = tag_uri(line)->0;
    let at = s - 5;
    let rest = line.skip(s);
    lemma_index_or_len(rest, '"');
    assert forall|j: int| 0 <= j < at implies #[trigger] line.subrange(j, j + 5) != pat by {
        assert(!occurs_at(line, pat, j));
    }
    let uri = line.subrange(s, e);
    assert forall|j: int| 0 <= j < uri.len() implies uri[j] != '"' by {
        assert(uri[j] == rest[j]);
    }
    assert(line[e] == rest[e - s]);
}

/// What a line comes to, and what the tag in it becomes.
proof fn lemma_tag_leads(t: Seq<char>, base: Seq<char>, ctx: RewriteCtx, line: Seq<char>)
    requires
        t == trim(line),
        t.len() > 0,
        t[0] == '#',
    ensures
        tag_pieces(t, base, ctx) is Some <==> leads_on(line, base),
        forall|url: Seq<char>| #[trigger]
            leads_to(line, base, url) ==> (tag_pieces(t, base, ctx) matches Some(p) && p.len() == 4 && (p[1] matches PieceView::Link(
                k,
            ) && k.u == url && k.d is None) && p[0] is Text && p[2] is Text && p[3] is Text),
{
    assert forall|url: Seq<char>| #[trigger] leads_to(line, base, url) implies (tag_pieces(t, base, ctx) matches Some(p)
        && p.len() == 4 && (p[1] matches PieceView::Link(k) && k.u == url && k.d is None) && p[0] is Text && p[2] is Text
        && p[3] is Text) by {
        let (at, uri) = choose|at: int, uri: Seq<char>| #[trigger] tag_holds(t, at, uri) && url_joined(base, uri) == Some(url);
        lemma_tag_uri(t, at, uri);
    }
    if tag_pieces(t, base, ctx) is Some {
        lemma_tag_uri_back(t);
        let (s, e) = tag_uri(t)->0;
        let url = url_joined(base, t.subrange(s, e))->0;
        assert(tag_holds(t, s - 5, t.subrange(s, e)));
        assert(leads_to(line, base, url));
    }
}

proof fn lemma_link_count_adds(a: Seq<PieceView>, b: Seq<PieceView>)
    ensures
        link_count(a + b) == link_count(a) + link_count(b),
    decreases b.len(),
{
    if b.len() == 0 {
        assert(a + b =~= a);
    } else {
        lemma_link_count_adds(a, b.drop_last());
        assert((a + b).drop_last() =~= a + b.drop_last());
    }
}

/// What one line of a playlist comes to.
pub open spec fn line_pieces(line: Seq<char>, pending: Option<Single>, base: Seq<char>, ctx: RewriteCtx) -> Seq<PieceView> {
    rewritten_from(seq![line], 0, pending, base, ctx)
}

/// The playlist is rewritten line by line: a line comes to the same whatever is around it, but for
/// the duration that was announced before it.
pub proof fn law_playlists_are_rewritten_line_by_line(ls: Seq<Seq<char>>, i: int, pending: Option<Single>, base: Seq<char>, ctx: RewriteCtx)
    requires
        0 <= i < ls.len(),
    ensures
        ({
            let t = trim(ls[i]);
            let later = if t.len() > 0 && t[0] == '#' {
                latest(pending, extinf(t))
            } else if t.len() > 0 && url_joined(base, t) is Some {
                None
            } else {
                pending
            };
            rewritten_from(ls, i, pending, base, ctx) == line_pieces(ls[i], pending, base, ctx) + rewritten_from(
                ls,
                i + 1,
                later,
                base,
                ctx,
            )
        }),
{
    let one = seq![ls[i]];
    let t = trim(ls[i]);
    reveal_with_fuel(rewritten_from, 3);
    let a = rewritten_from(one, 0, pending, base, ctx);
    if t.len() == 0 {
        assert(a =~= seq![PieceView::Text("\n"@)]);
    } else if t[0] == '#' {
        assert(a =~= match tag_pieces(t, base, ctx) {
            Some(p) => p,
            None => plain_line(ls[i]),
        });
    } else {
        match url_joined(base, t) {
            Some(u) => {
                assert(a =~= seq![PieceView::Link(ctx.token(u, pending)), PieceView::Text("\n"@)]);
            },
            None => {
                assert(a =~= plain_line(ls[i]));
            },
        }
    }
}

/// A tag keeps its words, and the URI in it, whatever the tag's name, becomes a link to where it
/// leads.
pub proof fn law_tags_lead_through_the_proxy(
    line: Seq<char>,
    pending: Option<Single>,
    base: Seq<char>,
    ctx: RewriteCtx,
    at: int,
    uri: Seq<char>,
    url: Seq<char>,
)
    requires
        tag_holds(trim(line), at, uri),
        url_joined(base, uri) == Some(url),
    ensures
        ({
            let t = trim(line);
            let p = line_pieces(line, pending, base, ctx);
            &&& p.len() == 4
            &&& p[0] == PieceView::Text(t.take(at + 5))
            &&& p[1] matches PieceView::Link(k) && k.u == url && k.d is None && carries_context(k, ctx)
            &&& p[2] == PieceView::Text(t.skip((at + 5 + uri.len()) as int))
            &&& p[3] == PieceView::Text("\n"@)
        }),
{
    let t = trim(line);
    lemma_tag_uri(t, at, uri);
    reveal_with_fuel(rewritten_from, 3);
    assert(line_pieces(line, pending, base, ctx) =~= tag_pieces(t, base, ctx)->0);
}

/// A reference becomes a link to where it leads, with the duration that was announced before it.
pub proof fn law_references_lead_through_the_proxy(
    line: Seq<char>,
    pending: Option<Single>,
    base: Seq<char>,
    ctx: RewriteCtx,
    url: Seq<char>,
)
    requires
        trim(line).len() > 0,
        trim(line)[0] != '#',
        url_joined(base, trim(line)) == Some(url),
    ensures
        ({
            let p = line_pieces(line, pending, base, ctx);
            &&& p.len() == 2
            &&& p[0] matches PieceView::Link(k) && k.u == url && k.d == pending && carries_context(k, ctx)
            &&& p[1] == PieceView::Text("\n"@)
        }),
{
    reveal_with_fuel(rewritten_from, 3);
    let p = line_pieces(line, pending, base, ctx);
    assert(p =~= seq![PieceView::Link(ctx.token(url, pending)), PieceView::Text("\n"@)]);
}

/// A line that leads nowhere stays as it is.
pub proof fn law_other_lines_stay(line: Seq<char>, pending: Option<Single>, base: Seq<char>, ctx: RewriteCtx)
    requires
        !leads_on(line, base),
    ensures
        trim(line).len() == 0 ==> line_pieces(line, pending, base, ctx) == seq![PieceView::Text("\n"@)],
        trim(line).len() > 0 ==> line_pieces(line, pending, base, ctx) == seq![PieceView::Text(line), PieceView::Text("\n"@)],
{
    let t = trim(line);
    let p = line_pieces(line, pending, base, ctx);
    reveal_with_fuel(rewritten_from, 3);
    if t.len() == 0 {
        assert(p =~= seq![PieceView::Text("\n"@)]);
    } else {
        if t[0] == '#' {
            lemma_tag_leads(t, base, ctx, line);
        } else if let Some(u) = url_joined(base, t) {
            assert(leads_to(line, base, u));
        }
        assert(p =~= plain_line(line));
    }
}

/// The line that announces a segment gives the reference behind it its duration.
pub proof fn law_segments_take_their_durations(
    head: Seq<char>,
    line: Seq<char>,
    base: Seq<char>,
    ctx: RewriteCtx,
    written: Seq<char>,
    title: Seq<char>,
    seconds: Single,
    before_it: Option<Single>,
)
    requires
        trim(head) == "#EXTINF:"@ + written + ","@ + title,
        forall|k: int| 0 <= k < written.len() ==> written[k] != ',',
        parse_single(written) == Some(seconds),
        seconds.bits > 0,
        trim(line).len() > 0,
        trim(line)[0] != '#',
        url_joined(base, trim(line)) is Some,
    ensures
        ({
            let p = rewritten_from(seq![head, line, line], 0, before_it, base, ctx);
            exists|k: int, n: int|
                0 <= k < n < p.len() && (#[trigger] p[k] matches PieceView::Link(a) && a.d == Some(seconds) && a.u
                    == url_joined(base, trim(line))->0) && (#[trigger] p[n] matches PieceView::Link(b) && b.d is None)
        }),
{
    reveal_strlit("#EXTINF:");
    reveal_strlit(",");
    let ls = seq![head, line, line];
    let t = trim(head);
    let rest = t.skip(8);
    assert(t.subrange(0, 8) =~= "#EXTINF:"@);
    assert(starts_with(t, "#EXTINF:"@));
    lemma_index_or_len(rest, ',');
    let i = index_or_len(rest, ',');
    assert(rest[written.len() as int] == ',');
    if i < written.len() {
        assert(rest[i] == written[i]);
    }
    assert(before(rest, ',') =~= written);
    assert(extinf(t) == Some(seconds));
    law_playlists_are_rewritten_line_by_line(ls, 0, before_it, base, ctx);
    law_playlists_are_rewritten_line_by_line(ls, 1, Some(seconds), base, ctx);
    law_playlists_are_rewritten_line_by_line(ls, 2, None, base, ctx);
    let url = url_joined(base, trim(line))->0;
    law_references_lead_through_the_proxy(line, Some(seconds), base, ctx, url);
    law_references_lead_through_the_proxy(line, None, base, ctx, url);
    let p = rewritten_from(ls, 0, before_it, base, ctx);
    let a = line_pieces(head, before_it, base, ctx);
    let b = line_pieces(line, Some(seconds), base, ctx);
    let c = line_pieces(line, None, base, ctx);
    assert(p =~= a + b + c + rewritten_from(ls, 3, None, base, ctx));
    assert(p[a.len() as int] == b[0]);
    assert(p[(a.len() + 2) as int] == c[0]);
}

proof fn lemma_line_links(line: Seq<char>, pending: Option<Single>, base: Seq<char>, ctx: RewriteCtx)
    ensures
        link_count(line_pieces(line, pending, base, ctx)) == (if leads_on(line, base) {
            1nat
        } else {
            0
        }),
        forall|url: Seq<char>| #[trigger]
            leads_to(line, base, url) ==> exists|k: int|
                0 <= k < line_pieces(line, pending, base, ctx).len() && (#[trigger] line_pieces(line, pending, base, ctx)[k] matches PieceView::Link(
                    t,
                ) && t.u == url) && link_count(line_pieces(line, pending, base, ctx).take(k)) == 0,
{
    let t = trim(line);
    let p = line_pieces(line, pending, base, ctx);
    reveal_with_fuel(link_count, 5);
    if leads_on(line, base) {
        let url = choose|url: Seq<char>| leads_to(line, base, url);
        if t[0] == '#' {
            let (at, uri) = choose|at: int, uri: Seq<char>| #[trigger] tag_holds(t, at, uri) && url_joined(base, uri) == Some(url);
            law_tags_lead_through_the_proxy(line, pending, base, ctx, at, uri, url);
            assert(p.take(1).drop_last() =~= Seq::empty());
            assert(link_count(p.take(1)) == 0);
            assert forall|v: Seq<char>| #[trigger] leads_to(line, base, v) implies v == url by {
                lemma_tag_leads(t, base, ctx, line);
            }
            assert(p[1] is Link);
            assert(p =~= seq![p[0], p[1], p[2], p[3]]);
            assert(p.drop_last() =~= seq![p[0], p[1], p[2]]);
            assert(seq![p[0], p[1], p[2]].drop_last() =~= seq![p[0], p[1]]);
            assert(seq![p[0], p[1]].drop_last() =~= seq![p[0]]);
            assert(seq![p[0]].drop_last() =~= Seq::empty());
        } else {
            law_references_lead_through_the_proxy(line, pending, base, ctx, url);
            assert(p.take(0) =~= Seq::empty());
            assert(p[0] is Link);
            assert(p =~= seq![p[0], p[1]]);
            assert(p.drop_last() =~= seq![p[0]]);
            assert(seq![p[0]].drop_last() =~= Seq::empty());
        }
    } else {
        law_other_lines_stay(line, pending, base, ctx);
        if t.len() == 0 {
            assert(p.drop_last() =~= Seq::empty());
        } else {
            assert(p.drop_last() =~= seq![PieceView::Text(line)]);
            assert(seq![PieceView::Text(line)].drop_last() =~= Seq::empty());
        }
    }
}

/// A rewritten playlist has as many links as lines that lead somewhere.
pub proof fn law_every_line_that_leads_on_is_a_link(
    ls: Seq<Seq<char>>,
    i: int,
    pending: Option<Single>,
    base: Seq<char>,
    ctx: RewriteCtx,
)
    requires
        0 <= i <= ls.len(),
    ensures
        link_count(rewritten_from(ls, i, pending, base, ctx)) == leading(ls.skip(i), base),
    decreases ls.len() - i,
{
    if i < ls.len() {
        let t = trim(ls[i]);
        let later = if t.len() > 0 && t[0] == '#' {
            latest(pending, extinf(t))
        } else if t.len() > 0 && url_joined(base, t) is Some {
            None
        } else {
            pending
        };
        law_playlists_are_rewritten_line_by_line(ls, i, pending, base, ctx);
        lemma_line_links(ls[i], pending, base, ctx);
        law_every_line_that_leads_on_is_a_link(ls, i + 1, later, base, ctx);
        lemma_link_count_adds(line_pieces(ls[i], pending, base, ctx), rewritten_from(ls, i + 1, later, base, ctx));
        assert(ls.skip(i).drop_first() =~= ls.skip(i + 1));
    } else {
        assert(rewritten_from(ls, i, pending, base, ctx) =~= Seq::empty());
    }
}

/// Each line that leads somewhere has its link at its place: behind those of the lines before it,
/// and to where the line leads.
pub proof fn law_links_keep_their_places(
    ls: Seq<Seq<char>>,
    i: int,
    pending: Option<Single>,
    base: Seq<char>,
    ctx: RewriteCtx,
    n: int,
    url: Seq<char>,
)
    requires
        0 <= i <= n < ls.len(),
        leads_to(ls[n], base, url),
    ensures
        ({
            let r = rewritten_from(ls, i, pending, base, ctx);
            exists|k: int|
                0 <= k < r.len() && (#[trigger] r[k] matches PieceView::Link(t) && t.u == url) && link_count(r.take(k))
                    == leading(ls.subrange(i, n), base)
        }),
    decreases n - i,
{
    let r = rewritten_from(ls, i, pending, base, ctx);
    let t = trim(ls[i]);
    let later = if t.len() > 0 && t[0] == '#' {
        latest(pending, extinf(t))
    } else if t.len() > 0 && url_joined(base, t) is Some {
        None
    } else {
        pending
    };
    let p = line_pieces(ls[i], pending, base, ctx);
    let rest = rewritten_from(ls, i + 1, later, base, ctx);
    law_playlists_are_rewritten_line_by_line(ls, i, pending, base, ctx);
    lemma_line_links(ls[i], pending, base, ctx);
    if i == n {
        let k = choose|k: int|
            0 <= k < p.len() && (#[trigger] p[k] matches PieceView::Link(t) && t.u == url) && link_count(p.take(k)) == 0;
        assert(r[k] == p[k]);
        assert(r.take(k) =~= p.take(k));
        assert(ls.subrange(i, n) =~= Seq::empty());
    } else {
        law_links_keep_their_places(ls, i + 1, later, base, ctx, n, url);
        let k = choose|k: int|
            0 <= k < rest.len() && (#[trigger] rest[k] matches PieceView::Link(t) && t.u == url) && link_count(rest.take(k))
                == leading(ls.subrange(i + 1, n), base);
        assert(r[p.len() + k] == rest[k]);
        assert(r.take(p.len() + k) =~= p + rest.take(k));
        lemma_link_count_adds(p, rest.take(k));
        assert(ls.subrange(i, n).drop_first() =~= ls.subrange(i + 1, n));
        assert(ls.subrange(i, n)[0] == ls[i]);
    }
}

/// Every link of a rewritten playlist carries the playlist's source, channel and host, and
/// says whether failures count and whether the client puts up with DVB subtitles.
pub proof fn law_links_carry_context(ls: Seq<Seq<char>>, i: int, pending: Option<Single>, base: Seq<char>, ctx: RewriteCtx)
    ensures
        forall|k: int|
            0 <= k < rewritten_from(ls, i, pending, base, ctx).len() ==> ((#[trigger] rewritten_from(
                ls,
                i,
                pending,
                base,
                ctx,
            )[k]) matches PieceView::Link(t) ==> carries_context(t, ctx)),
    decreases ls.len() - i,
{
    if 0 <= i < ls.len() {
        law_links_carry_context(ls, i + 1, pending, base, ctx);
        law_links_carry_context(ls, i + 1, None, base, ctx);
        law_links_carry_context(ls, i + 1, latest(pending, extinf(trim(ls[i]))), base, ctx);
        let whole = rewritten_from(ls, i, pending, base, ctx);
        let a = rewritten_from(ls, i + 1, pending, base, ctx);
        let b = rewritten_from(ls, i + 1, None, base, ctx);
        let c = rewritten_from(ls, i + 1, latest(pending, extinf(trim(ls[i]))), base, ctx);
        assert forall|k: int| 0 <= k < whole.len() implies ((#[trigger] whole[k]) matches PieceView::Link(t)
            ==> carries_context(t, ctx)) by {
            let t = trim(ls[i]);
            if t.len() == 0 {
                if k >= 1 {
                    assert(whole[k] == a[k - 1]);
                }
            } else if t[0] == '#' {
                let n: int = if tag_pieces(t, base, ctx) is Some {
                    4
                } else {
                    2
                };
                if k >= n {
                    assert(whole[k] == c[k - n]);
                }
            } else if url_joined(base, t) is Some {
                if k >= 2 {
                    assert(whole[k] == b[k - 2]);
                }
            } else if k >= 2 {
                assert(whole[k] == a[k - 2]);
            }
        }
    }
}

proof fn lemma_after_last(a: Seq<char>, b: Seq<char>, c: char)
    requires
        !b.contains(c),
    ensures
        after_last(a + seq![c] + b, c) == b,
        after_last(b, c) == b,
    decreases b.len(),
{
    let s = a + seq![c] + b;
    if b.len() == 0 {
        assert(s.last() == c);
    } else {
        let t = b.drop_last();
        assert(b[b.len() - 1] == b.last());
        assert(!t.contains(c)) by {
            if t.contains(c) {
                let i = choose|i: int| 0 <= i < t.len() && t[i] == c;
                assert(b[i] == c);
            }
        }
        lemma_after_last(a, t, c);
        assert(s.drop_last() =~= a + seq![c] + t);
        assert(s.last() == b.last());
        assert(t.push(b.last()) =~= b);
    }
}

proof fn lemma_before_query(s: Seq<char>, q: Seq<char>)
    requires
        !s.contains('?'),
    ensures
        before(s, '?') == s,
        before(s + seq!['?'] + q, '?') == s,
{
    lemma_index_or_len(s, '?');
    if index_or_len(s, '?') < s.len() {
        assert(s.contains(s[index_or_len(s, '?')]));
    }
    assert(s.take(s.len() as int) =~= s);
    let all = s + seq!['?'] + q;
    lemma_index_or_len(all, '?');
    let i = index_or_len(all, '?');
    assert(all[s.len() as int] == '?');
    if i < s.len() {
        assert(all[i] == s[i]);
        assert(s.contains(s[i]));
    }
    assert(i == s.len());
    assert(all.take(i) =~= s);
}

proof fn lemma_all_alphanumeric(s: Seq<char>)
    requires
        forall|i: int| 0 <= i < s.len() ==> ascii_alphanumeric(#[trigger] s[i]),
    ensures
        leading_alphanumerics(s) == s,
    decreases s.len(),
{
    if s.len() > 0 {
        let t = s.drop_first();
        assert forall|i: int| 0 <= i < t.len() implies ascii_alphanumeric(#[trigger] t[i]) by {
            assert(t[i] == s[i + 1]);
        }
        lemma_all_alphanumeric(t);
        assert(seq![s[0]] + t =~= s);
    }
}

/// A link ends as the file does that it leads to, whatever the query; without an ending it is taken
/// for a transport stream.
pub proof fn law_links_end_as_their_files(dir: Seq<char>, name: Seq<char>, ending: Seq<char>, query: Seq<char>)
    requires
        !dir.contains('?'),
        !name.contains('?') && !name.contains('/') && !name.contains('.'),
        ending.len() > 0,
        forall|i: int| 0 <= i < ending.len() ==> ascii_alphanumeric(#[trigger] ending[i]),
    ensures
        ({
            let bare = dir + seq!['/'] + name;
            let url = bare + seq!['.'] + ending;
            &&& ending_or_ts(url) == ascii_lowercase(ending)
            &&& ending_or_ts(url + seq!['?'] + query) == ascii_lowercase(ending)
            &&& ending_or_ts(bare) == "ts"@
        }),
{
    let bare = dir + seq!['/'] + name;
    let url = bare + seq!['.'] + ending;
    let file = name + seq!['.'] + ending;
    assert forall|c: char| c == '?' || c == '/' || c == '.' implies !ending.contains(c) by {
        if ending.contains(c) {
            let i = choose|i: int| 0 <= i < ending.len() && ending[i] == c;
            assert(ascii_alphanumeric(ending[i]));
        }
    }
    assert(!bare.contains('?')) by {
        if bare.contains('?') {
            let i = choose|i: int| 0 <= i < bare.len() && bare[i] == '?';
            if i < dir.len() {
                assert(dir[i] == '?');
            } else {
                assert(name[i - dir.len() - 1] == '?');
            }
        }
    }
    assert(!url.contains('?')) by {
        if url.contains('?') {
            let i = choose|i: int| 0 <= i < url.len() && url[i] == '?';
            if i < bare.len() {
                assert(bare[i] == '?');
            } else {
                assert(ending[i - bare.len() - 1] == '?');
            }
        }
    }
    assert(!file.contains('/')) by {
        if file.contains('/') {
            let i = choose|i: int| 0 <= i < file.len() && file[i] == '/';
            if i < name.len() {
                assert(name[i] == '/');
            } else {
                assert(ending[i - name.len() - 1] == '/');
            }
        }
    }
    lemma_before_query(url, query);
    lemma_before_query(bare, query);
    assert(url =~= dir + seq!['/'] + file);
    lemma_after_last(dir, file, '/');
    lemma_after_last(dir, name, '/');
    lemma_after_last(name, ending, '.');
    assert(file[name.len() as int] == '.');
    lemma_all_alphanumeric(ending);
}

/// A token that names a URL is what it says; anything else is a URL and nothing more.
pub proof fn law_bare_urls_are_tokens(payload: Seq<u8>, t: TokenView)
    ensures
        t.u.len() > 0 ==> decoded_token(payload, Some(t)) == Some(t),
        valid_utf8(payload) ==> (decoded_token(payload, None) matches Some(d) && d.u == decode_utf8(payload) && d.p is None
            && d.c is None && d.d is None && d.h is None && !d.probe && !d.dvb_safe),
        t.u.len() == 0 ==> decoded_token(payload, Some(t)) == decoded_token(payload, None),
        !valid_utf8(payload) ==> decoded_token(payload, None) is None,
{
}

/// An audio URL that was found is known for an hour.
pub proof fn law_found_urls_are_known_for_an_hour(m: Map<Seq<char>, (Seq<char>, u64)>, url: Seq<char>, now: u64)
    requires
        m.contains_key(url),
        m[url].1 <= now,
    ensures
        now - m[url].1 < 3600 * 1000000000 ==> resolved_url(m, url, now) == Some(m[url].0),
        now - m[url].1 >= 3600 * 1000000000 ==> resolved_url(m, url, now) is None,
{
}

/// The first line that is a URL is the one that counts.
pub proof fn law_the_first_url_counts(ls: Seq<Seq<char>>, from: int, k: int)
    requires
        0 <= from <= k < ls.len(),
        starts_with(trim(ls[k]), "http"@),
        forall|i: int| from <= i < k ==> !starts_with(trim(#[trigger] ls[i]), "http"@),
    ensures
        http_from(ls, from) == Some(trim(ls[k])),
    decreases k - from,
{
    if from < k {
        law_the_first_url_counts(ls, from + 1, k);
    }
}

/// Of the entries with a URL the first one counts.
pub proof fn law_the_first_entry_counts(ls: Seq<Seq<char>>, from: int, k: int, found: Seq<char>)
    requires
        0 <= from <= k < ls.len(),
    ensures
        (pls_entry(pattern_pairs(PLS_PATTERN@, trim(ls[k]))) == Some(found) && forall|i: int|
            from <= i < k ==> pls_entry(pattern_pairs(PLS_PATTERN@, trim(#[trigger] ls[i]))) is None) ==> pls_from(ls, from)
            == Some(found) && starts_with(found, "http"@),
    decreases k - from,
{
    if from < k {
        law_the_first_entry_counts(ls, from + 1, k, found);
    }
}

/// A playlist that ends and names a filler is one; one that goes on is not.
pub proof fn law_fillers_are_told_by_their_files(body: Seq<char>, i: int)
    ensures
        !contains(body, "#EXT-X-ENDLIST"@) ==> !filler_playlist(body),
        contains(body, "#EXT-X-ENDLIST"@) && 0 <= i < lines(body).len() && is_reference(lines(body)[i]) && names_filler(
            trim(lines(body)[i]),
        ) ==> filler_playlist(body),
{
}

/// The first reference of a playlist is its first line that is neither empty nor a tag.
pub proof fn law_the_first_reference_counts(ls: Seq<Seq<char>>, from: int, k: int)
    requires
        0 <= from <= k < ls.len(),
        trim(ls[k]).len() > 0 && trim(ls[k])[0] != '#',
        forall|i: int| from <= i < k ==> trim(#[trigger] ls[i]).len() == 0 || trim(ls[i])[0] == '#',
    ensures
        reference_from(ls, from) == Some(trim(ls[k])),
    decreases k - from,
{
    if from < k {
        law_the_first_reference_counts(ls, from + 1, k);
    }
}

/// A filler is told by its file name, whatever the directory, the query and the case.
pub proof fn law_fillers_are_told_by_their_names(dir: Seq<char>, query: Seq<char>)
    requires
        !dir.contains('?') && !dir.contains('#'),
    ensures
        names_filler(dir + seq!['/'] + "black.ts"@),
        names_filler(dir + seq!['/'] + "offline.ts"@ + seq!['?'] + query),
        !names_filler(dir + seq!['/'] + "live.ts"@),
{
    reveal_strlit("black.ts");
    reveal_strlit("offline.ts");
    reveal_strlit("no_signal.ts");
    reveal_strlit("no-signal.ts");
    reveal_strlit("nosignal.ts");
    reveal_strlit("notavailable.ts");
    reveal_strlit("not-available.ts");
    reveal_strlit("comingsoon.ts");
    reveal_strlit("coming-soon.ts");
    reveal_strlit("closed.ts");
    reveal_strlit("live.ts");
    let black = "black.ts"@;
    let offline = "offline.ts"@;
    let live = "live.ts"@;
    lemma_file_name(dir, black);
    lemma_file_name(dir, offline);
    lemma_file_name(dir, live);
    let u = dir + seq!['/'] + offline;
    lemma_before_query(u, query);
    assert(before(before(u + seq!['?'] + query, '?'), '#') == before(before(u, '?'), '#'));
    assert(ascii_lowercase(black) =~= black);
    assert(ascii_lowercase(offline) =~= offline);
    assert(ascii_lowercase(live) =~= live);
    assert(filler_files()[0] == black);
    assert(filler_files()[1] == offline);
    let f = filler_files();
    if f.contains(live) {
        let i = choose|i: int| 0 <= i < f.len() && f[i] == live;
        assert(f[i].len() != 7);
    }
}

proof fn lemma_file_name(dir: Seq<char>, name: Seq<char>)
    requires
        !dir.contains('?') && !dir.contains('#'),
        forall|i: int| 0 <= i < name.len() ==> #[trigger] name[i] != '?' && name[i] != '#' && name[i] != '/',
    ensures
        file_name(dir + seq!['/'] + name) == name,
        !(dir + seq!['/'] + name).contains('?'),
{
    let s = dir + seq!['/'] + name;
    assert(!s.contains('?') && !s.contains('#')) by {
        if s.contains('?') {
            let i = choose|i: int| 0 <= i < s.len() && s[i] == '?';
            if i < dir.len() {
                assert(dir[i] == '?');
            } else {
                assert(name[i - dir.len() - 1] == '?');
            }
        }
        if s.contains('#') {
            let i = choose|i: int| 0 <= i < s.len() && s[i] == '#';
            if i < dir.len() {
                assert(dir[i] == '#');
            } else {
                assert(name[i - dir.len() - 1] == '#');
            }
        }
    }
    assert(!name.contains('/')) by {
        if name.contains('/') {
            let i = choose|i: int| 0 <= i < name.len() && name[i] == '/';
            assert(name[i] != '/');
        }
    }
    law_texts_are_split_at_their_marks(s, '?', Seq::empty());
    law_texts_are_split_at_their_marks(s, '#', Seq::empty());
    lemma_after_last(dir, name, '/');
}

} // verus!
