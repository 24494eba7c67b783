//! Radio stations from an M3U playlist file.
use std::collections::hash_map::DefaultHasher;
use std::hash::Hasher;
use vstd::prelude::*;
use vstd::slice::slice_subrange;
use vstd::std_specs::hash::DefaultHasherAdditionalSpecFns;
use vstd::utf8::encode_utf8;
use crate::outside::{capture_pairs, lowercase, pair_texts, pattern_pairs, pattern_replaced, pattern_replaced_all};
use crate::outside::{replace_all, replace_first, to_lowercase};
use crate::text::{after_last, after_last_char, ascii, ascii_lowercase, before, before_char, chars_of, contains};
use crate::text::{ends_with, has, index_of, index_or_len, is_prefix, is_suffix, lemma_index_or_len, lines, lines_of};
use crate::text::{occurs_at, opt_text, owned, starts_with, str_eq, string_of, trim, trim_chars, trim_str, views};
use crate::xtream::{ChannelKind, LiveStream};

verus! {

/// How the audio of a radio station arrives.
#[derive(Debug, Clone, Copy, PartialEq, Eq, Structural)]
pub enum RadioFormat {
    Hls,
    Mp3,
    Aac,
    /// Audio over HTTP without a hint in the URL.
    Icecast,
    /// A playlist file that names the audio URL.
    Playlist,
}

/// The format of a URL that is in lower case already.
pub open spec fn url_format(lo: Seq<char>) -> RadioFormat {
    let path = before(lo, '?');
    let file = before(after_last(path, '/'), ';');
    if contains(lo, ".m3u8"@) {
        RadioFormat::Hls
    } else if ends_with(file, ".mp3"@) {
        RadioFormat::Mp3
    } else if ends_with(file, ".aac"@) {
        RadioFormat::Aac
    } else if ends_with(file, ".pls"@) || ends_with(file, ".m3u"@) {
        RadioFormat::Playlist
    } else if contains(path, "aac"@) {
        RadioFormat::Aac
    } else {
        RadioFormat::Icecast
    }
}

/// The format of a URL that is in lower case already.
pub fn classify_lowercase_url(lo: &str) -> (r: RadioFormat)
    ensures
        r == url_format(lo@),
{
    let v = chars_of(lo);
    if has(&v, &chars_of(".m3u8")) {
        return RadioFormat::Hls;
    }
    let path = before_char(&v, '?');
    let file = before_char(after_last_char(path, '/'), ';');
    if is_suffix(file, ".mp3") {
        return RadioFormat::Mp3;
    }
    if is_suffix(file, ".aac") {
        return RadioFormat::Aac;
    }
    if is_suffix(file, ".pls") || is_suffix(file, ".m3u") {
        return RadioFormat::Playlist;
    }
    if has(path, &chars_of("aac")) {
        return RadioFormat::Aac;
    }
    RadioFormat::Icecast
}

/// The format that a URL's shape suggests, whatever the case of its letters: lower-casing the
/// URL first changes nothing.
pub fn classify_url(u: &str) -> (r: RadioFormat)
    ensures
        r == url_format(lowercase(u@)),
        r == url_format(lowercase(lowercase(u@))),
        ascii(u@) ==> r == url_format(ascii_lowercase(u@)),
{
    classify_lowercase_url(&to_lowercase(u))
}

/// A URL is of an HLS playlist exactly where it names one.
pub proof fn law_hls_is_named(lo: Seq<char>)
    ensures
        url_format(lo) == RadioFormat::Hls <==> contains(lo, ".m3u8"@),
{
}

/// A query does not change the format of a URL in lower case, unless it names an HLS playlist.
pub proof fn law_queries_do_not_count(u: Seq<char>, q: Seq<char>)
    requires
        !u.contains('?'),
        !contains(u, ".m3u8"@),
        !contains(q, ".m3u8"@),
    ensures
        url_format(u + "?"@ + q) == url_format(u),
{
    reveal_strlit("?");
    reveal_strlit(".m3u8");
    let (w, pat) = (u + "?"@ + q, ".m3u8"@);
    assert(!contains(w, pat)) by {
        if contains(w, pat) {
            let i = choose|i: int| #[trigger] occurs_at(w, pat, i);
            let t = w.subrange(i, i + 5);
            assert(t[0] == '.' && t[1] == 'm' && t[2] == '3' && t[3] == 'u' && t[4] == '8');
            assert(w[i] == t[0] && w[i + 1] == t[1] && w[i + 2] == t[2] && w[i + 3] == t[3] && w[i + 4] == t[4]);
            assert(w[u.len() as int] == '?');
            if i + 5 <= u.len() {
                assert(u.subrange(i, i + 5) =~= t);
                assert(occurs_at(u, pat, i));
            } else {
                let j = i - u.len() - 1;
                assert(q.subrange(j, j + 5) =~= t);
                assert(occurs_at(q, pat, j));
            }
        }
    }
    lemma_index_or_len(u, '?');
    lemma_index_or_len(w, '?');
    let (a, b) = (index_or_len(u, '?'), index_or_len(w, '?'));
    assert(a == u.len()) by {
        if a < u.len() {
            assert(u[a] == '?');
            assert(u.contains('?'));
        }
    }
    assert(b == u.len()) by {
        if b < u.len() {
            assert(w[b] == u[b]);
            assert(u.contains('?'));
        } else if b > u.len() {
            assert(w[u.len() as int] == '?');
        }
    }
    assert(before(w, '?') =~= before(u, '?'));
}

/// The same of an ASCII URL in whatever case.
pub proof fn law_ascii_queries_do_not_count(u: Seq<char>, q: Seq<char>)
    requires
        ascii(u),
        ascii(q),
        !u.contains('?'),
        !contains(ascii_lowercase(u), ".m3u8"@),
        !contains(ascii_lowercase(q), ".m3u8"@),
    ensures
        ascii(u + "?"@ + q),
        url_format(ascii_lowercase(u + "?"@ + q)) == url_format(ascii_lowercase(u)),
{
    reveal_strlit("?");
    let (a, b) = (ascii_lowercase(u), ascii_lowercase(q));
    assert(ascii_lowercase(u + "?"@ + q) =~= a + "?"@ + b);
    assert(!a.contains('?')) by {
        if a.contains('?') {
            let i = choose|i: int| 0 <= i < a.len() && a[i] == '?';
            assert(u[i] == '?');
        }
    }
    assert forall|i: int| 0 <= i < (u + "?"@ + q).len() implies (#[trigger] (u + "?"@ + q)[i] as u32) < 0x80 by {
        if i < u.len() {
            assert((u + "?"@ + q)[i] == u[i]);
        } else if i > u.len() {
            assert((u + "?"@ + q)[i] == q[i - u.len() - 1]);
        }
    }
    law_queries_do_not_count(a, b);
}

// --- Stream ids ------------------------------------------------------------------------

/// The bit that radio stream ids have and providers' ids have not.
pub const RADIO_ID_MASK: u64 = 0x8000_0000_0000_0000;

/// The hash of two texts, each ended by a byte that no text holds.
pub open spec fn text_hash(a: Seq<char>, b: Seq<char>) -> u64 {
    DefaultHasher::spec_finish(seq![encode_utf8(a), seq![0xffu8], encode_utf8(b), seq![0xffu8]])
}

/// A stream id for a station: the hash of its name and URL, with the radio bit set.
pub fn synth_stream_id(name: &str, url: &str) -> (r: u64)
    ensures
        r == RADIO_ID_MASK | (text_hash(name@, url@) & !RADIO_ID_MASK),
        radio_id(r),
{
    let end: [u8; 1] = [0xff];
    let mut h = DefaultHasher::new();
    h.write(name.as_bytes());
    h.write(&end);
    h.write(url.as_bytes());
    h.write(&end);
    proof {
        assert(end@ =~= seq![0xffu8]);
        assert(h@ =~= seq![encode_utf8(name@), seq![0xffu8], encode_utf8(url@), seq![0xffu8]]);
    }
    let f = h.finish();
    assert((0x8000_0000_0000_0000u64 | (f & !0x8000_0000_0000_0000u64)) & 0x8000_0000_0000_0000u64 != 0) by (bit_vector);
    RADIO_ID_MASK | (f & !RADIO_ID_MASK)
}

/// The id has the radio bit.
pub open spec fn radio_id(id: u64) -> bool {
    id & RADIO_ID_MASK != 0
}

pub fn is_radio_stream_id(id: u64) -> (r: bool)
    ensures
        r == radio_id(id),
{
    id & RADIO_ID_MASK != 0
}

/// Ids below 2^63, which is all that providers give out, are no radio ids.
pub proof fn law_provider_ids_are_not_radio(id: u64)
    requires
        id < 0x8000_0000_0000_0000,
    ensures
        !radio_id(id),
{
    assert(id < 0x8000_0000_0000_0000 ==> id & 0x8000_0000_0000_0000 == 0) by (bit_vector);
}

// --- The playlist ------------------------------------------------------------------------

pub open spec fn radio_prefix() -> Seq<char> {
    "(?i)^r[áa]dio\\s+"@
}

pub open spec fn white_run() -> Seq<char> {
    "\\s+"@
}

pub open spec fn attribute() -> Seq<char> {
    "([\\w-]+)=\"([^\"]*)\""@
}

/// A station's name without the word for radio before it, with single spaces.
pub open spec fn station_name(name: Seq<char>) -> Seq<char> {
    trim(pattern_replaced_all(white_run(), pattern_replaced(radio_prefix(), name, ""@), " "@))
}

pub fn strip_radio_prefix(name: &str) -> (r: String)
    ensures
        r@ == station_name(name@),
{
    let stripped = replace_first("(?i)^r[áa]dio\\s+", name, "");
    trim_str(&replace_all("\\s+", &stripped, " "))
}

/// The value of the last pair with the key.
pub open spec fn last_value(pairs: Seq<(Seq<char>, Seq<char>)>, key: Seq<char>) -> Option<Seq<char>>
    decreases pairs.len(),
{
    if pairs.len() == 0 {
        None
    } else if pairs.last().0 == key {
        Some(pairs.last().1)
    } else {
        last_value(pairs.drop_last(), key)
    }
}

/// The value of the last pair with the key.
pub fn find_last(pairs: &Vec<(String, String)>, key: &str) -> (r: Option<String>)
    ensures
        opt_text(r) == last_value(pair_texts(pairs@), key@),
{
    let ghost all = pair_texts(pairs@);
    let mut i: usize = pairs.len();
    proof {
        assert(all.take(i as int) =~= all);
    }
    while i > 0
        invariant
            i <= pairs@.len(),
            all == pair_texts(pairs@),
            last_value(all, key@) == last_value(all.take(i as int), key@),
        decreases i,
    {
        proof {
            assert(all.take(i as int).last() == all[i - 1]);
            assert(all.take(i as int).drop_last() =~= all.take(i - 1));
        }
        if str_eq(&pairs[i - 1].0, key) {
            return Some(pairs[i - 1].1.clone());
        }
        i = i - 1;
    }
    None
}

/// The quoted attributes of a line, in their order.
pub fn parse_attrs(prelude: &str) -> (r: Vec<(String, String)>)
    ensures
        pair_texts(r@) == pattern_pairs(attribute(), prelude@),
{
    capture_pairs("([\\w-]+)=\"([^\"]*)\"", prelude)
}

/// A radio station of the playlist.
pub struct StationView {
    pub stream_id: u64,
    pub name: Seq<char>,
    pub icon: Seq<char>,
    pub url: Seq<char>,
    pub format: RadioFormat,
}

/// The station whose name, attributes and URL these are; `None` without name or URL.
pub open spec fn station(name: Seq<char>, attrs: Seq<(Seq<char>, Seq<char>)>, url: Seq<char>) -> Option<StationView> {
    if name.len() == 0 || url.len() == 0 {
        None
    } else {
        Some(
            StationView {
                stream_id: RADIO_ID_MASK | (text_hash(name, url) & !RADIO_ID_MASK),
                name,
                icon: match last_value(attrs, "tvg-logo"@) {
                    Some(v) => v,
                    None => Seq::empty(),
                },
                url,
                format: url_format(lowercase(url)),
            },
        )
    }
}

/// The station of an information line and a URL; `None` where the line has no comma.
pub open spec fn line_station(line: Seq<char>, url: Seq<char>) -> Option<StationView> {
    let comma = index_or_len(line, ',');
    if comma >= line.len() {
        None
    } else {
        station(
            station_name(trim(line.skip(comma + 1))),
            pattern_pairs(attribute(), line.take(comma)),
            url,
        )
    }
}

/// The stream is radio, and this is its station; all else of it is empty.
pub open spec fn is_station(s: LiveStream, v: StationView) -> bool {
    &&& s.stream_id == v.stream_id
    &&& s.name@ == v.name
    &&& s.stream_icon@ == v.icon
    &&& s.category_id@ == ""@
    &&& s.epg_channel_id is None
    &&& s.added is None
    &&& s.custom_sid is None
    &&& s.tv_archive is None
    &&& s.tv_archive_duration is None
    &&& opt_text(s.direct_source) == Some(v.url)
    &&& s.kind == ChannelKind::Radio
    &&& s.origin_host@ == ""@
    &&& s.radio_format == Some(v.format)
}

/// Makes the stream of a station, from its name and attributes.
pub fn station_stream(name: String, attrs: &Vec<(String, String)>, url: &str) -> (r: Option<LiveStream>)
    ensures
        match r {
            Some(s) => station(name@, pair_texts(attrs@), url@) matches Some(v) && is_station(s, v),
            None => station(name@, pair_texts(attrs@), url@) is None,
        },
{
    if name.as_str().is_empty() || url.is_empty() {
        return None;
    }
    let icon = match find_last(attrs, "tvg-logo") {
        Some(v) => v,
        None => String::new(),
    };
    proof {
        reveal_strlit("");
        assert(""@ =~= Seq::empty());
    }
    Some(
        LiveStream {
            stream_id: synth_stream_id(&name, url),
            name,
            stream_icon: icon,
            category_id: String::new(),
            epg_channel_id: None,
            added: None,
            custom_sid: None,
            tv_archive: None,
            tv_archive_duration: None,
            direct_source: Some(owned(url)),
            kind: ChannelKind::Radio,
            origin_host: String::new(),
            radio_format: Some(classify_url(url)),
        },
    )
}

pub fn entry_from(extinf_line: &str, url: &str) -> (r: Option<LiveStream>)
    ensures
        match r {
            Some(s) => line_station(extinf_line@, url@) matches Some(v) && is_station(s, v),
            None => line_station(extinf_line@, url@) is None,
        },
{
    let line = chars_of(extinf_line);
    proof {
        assert(line@.skip(0) =~= line@);
    }
    let comma = index_of(&line, ',', 0);
    if comma >= line.len() {
        return None;
    }
    let tail = slice_subrange(&line, comma + 1, line.len());
    proof {
        assert(tail@ =~= line@.skip(comma + 1));
    }
    let name = strip_radio_prefix(&string_of(trim_chars(tail)));
    let head = slice_subrange(&line, 0, comma);
    proof {
        assert(head@ =~= line@.take(comma as int));
    }
    let attrs = parse_attrs(&string_of(head));
    station_stream(name, &attrs, url)
}

/// A line that holds a URL: neither empty nor a comment.
pub open spec fn url_line(line: Seq<char>) -> bool {
    trim(line).len() > 0 && !starts_with(trim(line), "#"@)
}

/// The first line with a URL from `j` on, or the number of lines.
pub open spec fn next_url_line(ls: Seq<Seq<char>>, j: int) -> int
    decreases ls.len() - j,
{
    if j >= ls.len() || url_line(ls[j]) {
        j
    } else {
        next_url_line(ls, j + 1)
    }
}

/// The stations from line `i` on. An information line and the next line with a URL make
/// one; where they do not, both are passed over.
pub open spec fn stations(ls: Seq<Seq<char>>, i: int) -> Seq<StationView>
    decreases ls.len() - i,
{
    if i < 0 || i >= ls.len() {
        Seq::empty()
    } else if !starts_with(trim(ls[i]), "#EXTINF:"@) {
        stations(ls, i + 1)
    } else {
        let j = next_url_line(ls, i + 1);
        if j <= i || j >= ls.len() {
            Seq::empty()
        } else {
            match line_station(trim(ls[i]), trim(ls[j])) {
                Some(v) => seq![v] + stations(ls, j + 1),
                None => stations(ls, j + 1),
            }
        }
    }
}

proof fn lemma_next_url_line(ls: Seq<Seq<char>>, j: int)
    requires
        0 <= j <= ls.len(),
    ensures
        j <= next_url_line(ls, j) <= ls.len(),
    decreases ls.len() - j,
{
    if j < ls.len() && !url_line(ls[j]) {
        lemma_next_url_line(ls, j + 1);
    }
}

fn find_url_line(ls: &Vec<Vec<char>>, from: usize) -> (r: usize)
    requires
        from <= ls@.len(),
    ensures
        r == next_url_line(views(ls@), from as int),
        from <= r <= ls@.len(),
{
    let mut j: usize = from;
    while j < ls.len()
        invariant
            from <= j <= ls@.len(),
            next_url_line(views(ls@), from as int) == next_url_line(views(ls@), j as int),
        decreases ls@.len() - j,
    {
        let l = trim_chars(&ls[j]);
        if l.len() > 0 && !is_prefix(l, "#") {
            return j;
        }
        j = j + 1;
    }
    j
}

/// Each stream is the station at its place.
pub open spec fn are_stations(s: Seq<LiveStream>, v: Seq<StationView>) -> bool {
    s.len() == v.len() && forall|i: int| 0 <= i < s.len() ==> is_station(#[trigger] s[i], v[i])
}

/// The stations of a playlist file.
pub fn parse_m3u(body: &str) -> (r: Vec<LiveStream>)
    ensures
        are_stations(r@, stations(lines(body@), 0)),
{
    let text = chars_of(body);
    let ls = lines_of(&text);
    let ghost lv = views(ls@);
    let ghost mut done: Seq<StationView> = Seq::empty();
    let mut out: Vec<LiveStream> = Vec::new();
    let mut i: usize = 0;
    proof {
        assert(done + stations(lv, 0) =~= stations(lv, 0));
    }
    while i < ls.len()
        invariant
            i <= ls@.len(),
            lv == views(ls@),
            lv == lines(body@),
            are_stations(out@, done),
            done + stations(lv, i as int) == stations(lv, 0),
        decreases ls@.len() - i,
    {
        let line = trim_chars(&ls[i]);
        if !is_prefix(line, "#EXTINF:") {
            i = i + 1;
        } else {
            let j = find_url_line(&ls, i + 1);
            if j >= ls.len() {
                proof {
                    assert(done + stations(lv, i as int) =~= done);
                }
                return out;
            }
            let entry = entry_from(&string_of(line), &string_of(trim_chars(&ls[j])));
            let ghost was = done;
            match entry {
                Some(e) => {
                    out.push(e);
                    proof {
                        let v = line_station(trim(lv[i as int]), trim(lv[j as int]))->0;
                        done = done.push(v);
                        assert(done + stations(lv, j + 1) =~= was + stations(lv, i as int));
                    }
                },
                None => {},
            }
            i = j + 1;
        }
    }
    proof {
        assert(done + stations(lv, i as int) =~= done);
    }
    out
}

/// A station is told of by its name and URL, with the logo that its line names last, under a radio
/// id; without a name or URL there is none.
pub proof fn law_stations_tell_of_their_lines(name: Seq<char>, attrs: Seq<(Seq<char>, Seq<char>)>, url: Seq<char>, logo: Seq<char>)
    requires
        name.len() > 0,
        url.len() > 0,
    ensures
        ({
            let plain = station(name, attrs, url);
            let with_logo = station(name, attrs.push(("tvg-logo"@, logo)), url);
            &&& plain is Some
            &&& plain->0.name == name
            &&& plain->0.url == url
            &&& radio_id(plain->0.stream_id)
            &&& with_logo is Some
            &&& with_logo->0.icon == logo
            &&& with_logo->0.name == name
            &&& with_logo->0.url == url
            &&& with_logo->0.stream_id == plain->0.stream_id
            &&& contains(lowercase(url), ".m3u8"@) ==> plain->0.format == RadioFormat::Hls
            &&& attrs.len() == 0 ==> plain->0.icon.len() == 0
        }),
        station(Seq::empty(), attrs, url) is None,
        station(name, attrs, Seq::empty()) is None,
{
    let f = text_hash(name, url);
    assert((0x8000_0000_0000_0000u64 | (f & !0x8000_0000_0000_0000u64)) & 0x8000_0000_0000_0000u64 != 0) by (bit_vector);
}

proof fn lemma_stations_behind(pre: Seq<Seq<char>>, ls: Seq<Seq<char>>, i: int)
    requires
        0 <= i <= ls.len(),
    ensures
        stations(pre + ls, pre.len() + i) == stations(ls, i),
    decreases ls.len() - i,
{
    if i < ls.len() {
        assert((pre + ls)[pre.len() + i] == ls[i]);
        if starts_with(trim(ls[i]), "#EXTINF:"@) {
            lemma_url_line_behind(pre, ls, i + 1);
            lemma_next_url_line(ls, i + 1);
            let j = next_url_line(ls, i + 1);
            if j < ls.len() {
                assert((pre + ls)[pre.len() + j] == ls[j]);
                lemma_stations_behind(pre, ls, j + 1);
            }
        } else {
            lemma_stations_behind(pre, ls, i + 1);
        }
    }
}

proof fn lemma_url_line_behind(pre: Seq<Seq<char>>, ls: Seq<Seq<char>>, j: int)
    requires
        0 <= j <= ls.len(),
    ensures
        next_url_line(pre + ls, pre.len() + j) == pre.len() + next_url_line(ls, j),
    decreases ls.len() - j,
{
    if j < ls.len() {
        assert((pre + ls)[pre.len() + j] == ls[j]);
        if !url_line(ls[j]) {
            lemma_url_line_behind(pre, ls, j + 1);
        }
    }
}

proof fn lemma_pass_lines(info: Seq<char>, between: Seq<Seq<char>>, rest: Seq<Seq<char>>, j: int)
    requires
        0 <= j <= between.len(),
        forall|k: int| 0 <= k < between.len() ==> !url_line(#[trigger] between[k]),
        rest.len() > 0,
        url_line(rest[0]),
    ensures
        next_url_line(seq![info] + (between + rest), 1 + j) == 1 + between.len(),
    decreases between.len() - j,
{
    let all = seq![info] + (between + rest);
    if j < between.len() {
        assert(all[1 + j] == between[j]);
        lemma_pass_lines(info, between, rest, j + 1);
    } else {
        assert(all[1 + j] == rest[0]);
    }
}

/// An information line and the next line with a URL make a station, whatever comments stand between
/// them, and the stations behind it follow; other lines make none.
pub proof fn law_lines_make_stations(info: Seq<char>, between: Seq<Seq<char>>, url: Seq<char>, rest: Seq<Seq<char>>, other: Seq<char>)
    requires
        starts_with(trim(info), "#EXTINF:"@),
        forall|k: int| 0 <= k < between.len() ==> !url_line(#[trigger] between[k]),
        trim(url).len() > 0 && trim(url)[0] != '#',
        !starts_with(trim(other), "#EXTINF:"@),
    ensures
        stations(seq![info] + (between + (seq![url] + rest)), 0) == (match line_station(trim(info), trim(url)) {
            Some(v) => seq![v],
            None => Seq::empty(),
        }) + stations(rest, 0),
        stations(seq![other] + rest, 0) == stations(rest, 0),
{
    reveal_strlit("#");
    let tail = seq![url] + rest;
    let all = seq![info] + (between + tail);
    assert(tail[0] == url);
    assert(url_line(url)) by {
        if starts_with(trim(url), "#"@) {
            assert(trim(url).subrange(0, 1)[0] == '#');
        }
    }
    lemma_pass_lines(info, between, tail, 0);
    assert(all[0] == info);
    assert(all[(1 + between.len()) as int] == url);
    let pre = seq![info] + between + seq![url];
    assert(all =~= pre + rest);
    lemma_stations_behind(pre, rest, 0);
    assert((seq![other] + rest)[0] == other);
    lemma_stations_behind(seq![other], rest, 0);
}

} // verus!
