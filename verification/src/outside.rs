//! What the library has from other crates and from the parts of `std` that are not
//! specified elsewhere. Nothing here is proved: each contract says what is believed of
//! the function it names.
use base64::Engine;
use dashmap::DashMap;
use unicode_normalization::UnicodeNormalization;
use vstd::prelude::*;
use vstd::utf8::{decode_utf8, valid_utf8};
use crate::epg::{CachedEpg, CachedView};
use crate::text::{ascii, ascii_alphanumeric, ascii_lowercase, no_capitals, opt_text, texts};

verus! {

// --- std ---------------------------------------------------------------------------

/// `String::push`: the character goes to the end of the string.
pub assume_specification[ String::push ](s: &mut String, c: char)
    ensures
        final(s)@ == old(s)@.push(c),
;

/// What `str::to_lowercase` makes of a text: the Unicode lower-case mapping.
pub uninterp spec fn lowercase(s: Seq<char>) -> Seq<char>;

/// Calls `str::to_lowercase`; the result is a function of the text alone. It is in lower case:
/// it holds no ASCII capital, and lower-casing it again changes nothing. In an ASCII text
/// the capitals become the small letters and nothing else changes. How the lower case of a
/// whole text relates to that of its parts is left unsaid otherwise: a sigma at the end of a
/// word has a lower case of its own.
#[verifier::external_body]
pub(crate) fn to_lowercase(s: &str) -> (r: String)
    ensures
        r@ == lowercase(s@),
        no_capitals(r@),
        lowercase(r@) == r@,
        ascii(s@) ==> r@ == ascii_lowercase(s@),
{
    s.to_lowercase()
}

/// Whether a character has Unicode's Alphabetic property.
pub uninterp spec fn alphabetic(c: char) -> bool;

/// Calls `char::is_alphabetic`; the result is a function of the character alone.
#[verifier::external_body]
pub(crate) fn is_alphabetic(c: char) -> (r: bool)
    ensures
        r == alphabetic(c),
{
    c.is_alphabetic()
}

/// Calls `String::from_utf8`: the text that the bytes encode, where they are UTF-8.
#[verifier::external_body]
pub(crate) fn from_utf8(v: Vec<u8>) -> (r: Option<String>)
    ensures
        match r {
            Some(s) => valid_utf8(v@) && s@ == decode_utf8(v@),
            None => !valid_utf8(v@),
        },
{
    String::from_utf8(v).ok()
}

/// What `String::from_utf8_lossy` reads from bytes: the text, with a replacement
/// character where they are not UTF-8.
pub uninterp spec fn utf8_lossy(v: Seq<u8>) -> Seq<char>;

/// Calls `String::from_utf8_lossy`; the result is a function of the bytes alone, and bytes
/// that are UTF-8 give the text that they encode.
#[verifier::external_body]
pub(crate) fn from_utf8_lossy(v: &[u8]) -> (r: String)
    ensures
        r@ == utf8_lossy(v@),
        valid_utf8(v@) ==> r@ == decode_utf8(v@),
{
    String::from_utf8_lossy(v).into_owned()
}

// --- regex ---------------------------------------------------------------------------

/// Whether `Regex::new` accepts a pattern.
pub uninterp spec fn pattern_valid(pattern: Seq<char>) -> bool;

/// Calls `Regex::new`, to learn whether the pattern is a regular expression.
#[verifier::external_body]
pub(crate) fn is_pattern(pattern: &str) -> (r: bool)
    ensures
        r == pattern_valid(pattern@),
{
    regex::Regex::new(pattern).is_ok()
}

/// Whether a pattern is a regular expression that `Regex::is_match` finds in a text.
pub uninterp spec fn pattern_matches(pattern: Seq<char>, text: Seq<char>) -> bool;

/// Calls `Regex::is_match`; what is no regular expression matches nothing. The result is
/// a function of pattern and text.
#[verifier::external_body]
pub(crate) fn is_match(pattern: &str, text: &str) -> (r: bool)
    ensures
        r == pattern_matches(pattern@, text@),
{
    match regex::Regex::new(pattern) {
        Ok(re) => re.is_match(text),
        Err(_) => false,
    }
}

/// The text that `Regex::replace` gives: the first match of the pattern replaced.
pub uninterp spec fn pattern_replaced(pattern: Seq<char>, text: Seq<char>, with: Seq<char>) -> Seq<char>;

/// Calls `Regex::replace`; what is no regular expression leaves the text as it is. The
/// result is a function of the three texts.
#[verifier::external_body]
pub(crate) fn replace_first(pattern: &str, text: &str, with: &str) -> (r: String)
    ensures
        r@ == pattern_replaced(pattern@, text@, with@),
{
    match regex::Regex::new(pattern) {
        Ok(re) => re.replace(text, with).into_owned(),
        Err(_) => text.to_string(),
    }
}

/// The text that `Regex::replace_all` gives: every match of the pattern replaced.
pub uninterp spec fn pattern_replaced_all(pattern: Seq<char>, text: Seq<char>, with: Seq<char>) -> Seq<char>;

/// Calls `Regex::replace_all`; what is no regular expression leaves the text as it is. The
/// result is a function of the three texts.
#[verifier::external_body]
pub(crate) fn replace_all(pattern: &str, text: &str, with: &str) -> (r: String)
    ensures
        r@ == pattern_replaced_all(pattern@, text@, with@),
{
    match regex::Regex::new(pattern) {
        Ok(re) => re.replace_all(text, with).into_owned(),
        Err(_) => text.to_string(),
    }
}

/// The first two groups of each match that `Regex::captures_iter` finds, in order; a
/// group that took no part in its match is empty.
pub uninterp spec fn pattern_pairs(pattern: Seq<char>, text: Seq<char>) -> Seq<(Seq<char>, Seq<char>)>;

/// The texts of a vector of pairs.
pub open spec fn pair_texts(v: Seq<(String, String)>) -> Seq<(Seq<char>, Seq<char>)> {
    Seq::new(v.len(), |i: int| (v[i].0@, v[i].1@))
}

/// Calls `Regex::captures_iter`; what is no regular expression has no match, and a group that
/// took no part in a match comes out as an empty text. The result is a function of pattern and
/// text.
#[verifier::external_body]
pub(crate) fn capture_pairs(pattern: &str, text: &str) -> (r: Vec<(String, String)>)
    ensures
        pair_texts(r@) == pattern_pairs(pattern@, text@),
{
    match regex::Regex::new(pattern) {
        Ok(re) => {
            let group = |c: &regex::Captures, i: usize| c.get(i).map_or(String::new(), |m| m.as_str().to_string());
            re.captures_iter(text).map(|c| (group(&c, 1), group(&c, 2))).collect()
        },
        Err(_) => Vec::new(),
    }
}

// --- unicode-normalization -----------------------------------------------------------

/// Unicode Normalization Form D of a text.
pub uninterp spec fn decomposed(s: Seq<char>) -> Seq<char>;

/// Calls `UnicodeNormalization::nfd`; the result is a function of the text alone.
#[verifier::external_body]
pub(crate) fn nfd(s: &str) -> (r: String)
    ensures
        r@ == decomposed(s@),
{
    s.nfd().collect()
}

// --- base64 --------------------------------------------------------------------------

/// The bytes behind an optional vector.
pub open spec fn opt_bytes(o: Option<Vec<u8>>) -> Option<Seq<u8>> {
    match o {
        Some(v) => Some(v@),
        None => None,
    }
}

/// What base64's `STANDARD` engine decodes a text to: padding is required.
pub uninterp spec fn base64_padded(s: Seq<char>) -> Option<Seq<u8>>;

/// Calls `Engine::decode` of `general_purpose::STANDARD`; the result is a function of the
/// text alone.
#[verifier::external_body]
pub(crate) fn decode_base64(s: &str) -> (r: Option<Vec<u8>>)
    ensures
        opt_bytes(r) == base64_padded(s@),
{
    base64::engine::general_purpose::STANDARD.decode(s.as_bytes()).ok()
}

/// What base64's `STANDARD_NO_PAD` engine decodes a text to: padding is refused.
pub uninterp spec fn base64_unpadded(s: Seq<char>) -> Option<Seq<u8>>;

/// Calls `Engine::decode` of `general_purpose::STANDARD_NO_PAD`; the result is a function
/// of the text alone.
#[verifier::external_body]
pub(crate) fn decode_base64_unpadded(s: &str) -> (r: Option<Vec<u8>>)
    ensures
        opt_bytes(r) == base64_unpadded(s@),
{
    base64::engine::general_purpose::STANDARD_NO_PAD.decode(s.as_bytes()).ok()
}

/// What base64's `URL_SAFE_NO_PAD` engine makes of bytes.
pub uninterp spec fn url_base64(v: Seq<u8>) -> Seq<char>;

/// What base64's `URL_SAFE_NO_PAD` engine decodes a text to.
pub uninterp spec fn url_base64_decoded(s: Seq<char>) -> Option<Seq<u8>>;

/// The characters of base64's `URL_SAFE` alphabet.
pub open spec fn url_safe(c: char) -> bool {
    ascii_alphanumeric(c) || c == '-' || c == '_'
}

/// Calls `Engine::encode` of `general_purpose::URL_SAFE_NO_PAD`: a text of the alphabet,
/// which the same engine decodes to the bytes again. The result is a function of the bytes.
#[verifier::external_body]
pub(crate) fn encode_url_base64(v: &[u8]) -> (r: String)
    ensures
        r@ == url_base64(v@),
        url_base64_decoded(r@) == Some(v@),
        forall|i: int| 0 <= i < r@.len() ==> url_safe(#[trigger] r@[i]),
{
    base64::engine::general_purpose::URL_SAFE_NO_PAD.encode(v)
}

/// Calls `Engine::decode` of `general_purpose::URL_SAFE_NO_PAD`; the result is a function
/// of the text alone.
#[verifier::external_body]
pub(crate) fn decode_url_base64(s: &str) -> (r: Option<Vec<u8>>)
    ensures
        opt_bytes(r) == url_base64_decoded(s@),
{
    base64::engine::general_purpose::URL_SAFE_NO_PAD.decode(s.as_bytes()).ok()
}

// --- url -----------------------------------------------------------------------------

/// Scheme, host and path of what `Url::parse` makes of a text.
pub uninterp spec fn url_parts(s: Seq<char>) -> Option<(Seq<char>, Option<Seq<char>>, Seq<char>)>;

/// Calls `Url::parse` and reads scheme, host and path of the result, which are a function
/// of the text.
#[verifier::external_body]
pub(crate) fn read_url(s: &str) -> (r: Option<(String, Option<String>, String)>)
    ensures
        match r {
            Some(p) => url_parts(s@) == Some((p.0@, opt_text(p.1), p.2@)),
            None => url_parts(s@) is None,
        },
{
    match url::Url::parse(s) {
        Ok(u) => Some((u.scheme().to_string(), u.host_str().map(|h| h.to_string()), u.path().to_string())),
        Err(_) => None,
    }
}

/// The text of what `Url::join` makes of a base and a reference; none where the base is no
/// URL or the reference cannot be joined to it.
pub uninterp spec fn url_joined(base: Seq<char>, reference: Seq<char>) -> Option<Seq<char>>;

/// Calls `Url::join` on what `Url::parse` makes of the base; the result is a function of
/// the two texts.
#[verifier::external_body]
pub(crate) fn join_url(base: &str, reference: &str) -> (r: Option<String>)
    ensures
        opt_text(r) == url_joined(base@, reference@),
{
    match url::Url::parse(base) {
        Ok(u) => u.join(reference).ok().map(|j| j.to_string()),
        Err(_) => None,
    }
}

// --- time ----------------------------------------------------------------------------

/// The seconds since the Unix epoch that lie in the years -9999 to 9999.
pub open spec fn in_calendar(secs: int) -> bool {
    -377705116800 <= secs <= 253402300799
}

/// Year, month, day, hour and minute, in UTC, of a number of seconds since the Unix epoch.
pub uninterp spec fn utc_fields(secs: int) -> (int, int, int, int, int);

/// Calls `OffsetDateTime::from_unix_timestamp` and reads the fields of the result, which
/// are a function of the seconds.
#[verifier::external_body]
pub(crate) fn read_utc_fields(secs: i64) -> (r: (i32, u8, u8, u8, u8))
    requires
        in_calendar(secs as int),
    ensures
        (r.0 as int, r.1 as int, r.2 as int, r.3 as int, r.4 as int) == utc_fields(secs as int),
        -9999 <= r.0 <= 9999,
        1 <= r.1 <= 12,
        1 <= r.2 <= 31,
        r.3 < 24,
        r.4 < 60,
{
    let t = time::OffsetDateTime::from_unix_timestamp(secs).unwrap();
    (t.year(), u8::from(t.month()), t.day(), t.hour(), t.minute())
}

/// What a text means in the format of RFC 3339: nanoseconds since the Unix epoch, and the
/// offset from UTC in seconds.
pub uninterp spec fn rfc3339(s: Seq<char>) -> Option<(int, int)>;

/// Calls `OffsetDateTime::parse` with the description `Rfc3339`; the result is a function
/// of the text alone.
#[verifier::external_body]
pub(crate) fn parse_rfc3339(s: &str) -> (r: Option<(i128, i32)>)
    ensures
        rfc3339(s@) == match r {
            Some((n, o)) => Some((n as int, o as int)),
            None => None,
        },
{
    match time::OffsetDateTime::parse(s, &time::format_description::well_known::Rfc3339) {
        Ok(t) => Some((t.unix_timestamp_nanos(), t.offset().whole_seconds())),
        Err(_) => None,
    }
}

/// What a text means as a date and time of UTC in the given format: nanoseconds since the
/// Unix epoch.
pub uninterp spec fn utc_by_format(s: Seq<char>, format: Seq<char>) -> Option<int>;

/// Calls `PrimitiveDateTime::parse` with the format description that
/// `format_description::parse_borrowed` makes of `format`, and `assume_utc` on the result;
/// what is no description reads nothing. The result is a function of the two texts.
#[verifier::external_body]
pub(crate) fn parse_utc(s: &str, format: &str) -> (r: Option<i128>)
    ensures
        utc_by_format(s@, format@) == match r {
            Some(n) => Some(n as int),
            None => None,
        },
{
    let items = time::format_description::parse_borrowed::<1>(format).ok()?;
    match time::PrimitiveDateTime::parse(s, &items) {
        Ok(t) => Some(t.assume_utc().unix_timestamp_nanos()),
        Err(_) => None,
    }
}

// --- dashmap -------------------------------------------------------------------------

/// `dashmap::DashMap`, a hash map. Its methods change it behind a shared reference; the
/// functions below that change it ask for an exclusive one, so that what it holds is a
/// function of the value.
#[verifier::external_type_specification]
#[verifier::external_body]
#[verifier::reject_recursive_types(K)]
#[verifier::reject_recursive_types(V)]
#[verifier::reject_recursive_types(S)]
pub struct ExDashMap<K, V, S>(DashMap<K, V, S>);

/// The programme guides that a map holds, by channel key.
pub uninterp spec fn guides_in(m: DashMap<String, CachedEpg>) -> Map<Seq<char>, CachedView>;

/// Calls `DashMap::new`: nothing is held.
#[verifier::external_body]
pub(crate) fn no_guides() -> (r: DashMap<String, CachedEpg>)
    ensures
        forall|k: Seq<char>| !(#[trigger] guides_in(r).contains_key(k)),
{
    DashMap::new()
}

/// Calls `DashMap::get`: a copy of what is held under the key.
#[verifier::external_body]
pub(crate) fn get_guide(m: &DashMap<String, CachedEpg>, key: &str) -> (r: Option<CachedEpg>)
    ensures
        match r {
            Some(e) => guides_in(*m).contains_key(key@) && guides_in(*m)[key@] == e@,
            None => !guides_in(*m).contains_key(key@),
        },
{
    m.get(key).map(|e| e.value().clone())
}

/// Calls `DashMap::insert`: the value takes the place of any that the key had.
#[verifier::external_body]
pub(crate) fn put_guide(m: &mut DashMap<String, CachedEpg>, key: String, e: CachedEpg)
    ensures
        guides_in(*final(m)) == guides_in(*old(m)).insert(key@, e@),
{
    m.insert(key, e);
}

/// Calls `DashMap::remove`: nothing is held under the key any more.
#[verifier::external_body]
pub(crate) fn drop_guide(m: &mut DashMap<String, CachedEpg>, key: &str)
    ensures
        guides_in(*final(m)) == guides_in(*old(m)).remove(key@),
{
    m.remove(key);
}

/// Calls `DashMap::iter` and reads the keys: each that is held comes once, in no
/// particular order.
#[verifier::external_body]
pub(crate) fn guide_keys(m: &DashMap<String, CachedEpg>) -> (r: Vec<String>)
    ensures
        texts(r@).no_duplicates(),
        forall|k: Seq<char>| #[trigger] texts(r@).contains(k) == guides_in(*m).contains_key(k),
{
    m.iter().map(|e| e.key().clone()).collect()
}

/// The URLs that a map holds behind others, each with the time at which it was found.
pub uninterp spec fn targets_in(m: DashMap<String, (String, u64)>) -> Map<Seq<char>, (Seq<char>, u64)>;

/// Calls `DashMap::new`: nothing is held.
#[verifier::external_body]
pub(crate) fn no_targets() -> (r: DashMap<String, (String, u64)>)
    ensures
        forall|k: Seq<char>| !(#[trigger] targets_in(r).contains_key(k)),
{
    DashMap::new()
}

/// Calls `DashMap::get`: a copy of what is held under the key.
#[verifier::external_body]
pub(crate) fn get_target(m: &DashMap<String, (String, u64)>, key: &str) -> (r: Option<(String, u64)>)
    ensures
        match r {
            Some(t) => targets_in(*m).contains_key(key@) && targets_in(*m)[key@] == (t.0@, t.1),
            None => !targets_in(*m).contains_key(key@),
        },
{
    m.get(key).map(|e| e.value().clone())
}

/// Calls `DashMap::insert`: the value takes the place of any that the key had.
#[verifier::external_body]
pub(crate) fn put_target(m: &mut DashMap<String, (String, u64)>, key: String, url: String, at: u64)
    ensures
        targets_in(*final(m)) == targets_in(*old(m)).insert(key@, (url@, at)),
{
    m.insert(key, (url, at));
}

// --- std::time -------------------------------------------------------------------------

/// How `Debug` writes a `Duration` of so many nanoseconds, such as `1.5s`.
pub uninterp spec fn duration_text(nanos: u64) -> Seq<char>;

/// Calls `Debug::fmt` of `std::time::Duration`; the result is a function of the duration.
#[verifier::external_body]
pub(crate) fn write_duration(nanos: u64) -> (r: String)
    ensures
        r@ == duration_text(nanos),
{
    format!("{:?}", std::time::Duration::from_nanos(nanos))
}

} // verus!
