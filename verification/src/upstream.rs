//! What is made of the replies of upstream servers.
use vstd::prelude::*;
use vstd::slice::slice_to_vec;
use vstd::utf8::{decode_utf8, valid_utf8};
use crate::outside::{from_utf8, join_url, lowercase, read_url, to_lowercase, url_joined, url_parts};
use crate::playlist::{abuse_host, filler_playlist, is_abuse_host, looks_like_placeholder_playlist};
use crate::playlist::{pick_first_uri_in_playlist, reference_from};
use crate::probe::{is_placeholder_manifest, placeholder};
use crate::segment::{is_fine, is_success, succeeded, went_well};
use crate::text::{chars_of, contains, decimal, ends_with, is_suffix, lines, opt_text, owned, push_decimal, push_text};
use crate::text::{starts_with, str_eq, str_has, str_starts_with};

verus! {

// --- Playlists ------------------------------------------------------------------------------------

/// What is wrong with a playlist.
#[derive(Debug, Clone, Copy, PartialEq, Eq, Structural)]
pub enum PlaylistFault {
    /// It stands in for a stream that is not there.
    Placeholder,
    NotPlaylist,
}

/// A reply is a playlist, by its content type or its first line.
pub open spec fn is_playlist(content_type: Seq<char>, body: Seq<char>) -> bool {
    starts_with(body, "#EXTM3U"@) || contains(content_type, "mpegurl"@) || contains(content_type, "m3u8"@)
}

/// What is wrong with a reply that should be a playlist; none where it is one to play.
pub fn judge_playlist(content_type: &str, body: &str) -> (r: Option<PlaylistFault>)
    ensures
        r == if !is_playlist(content_type@, body@) {
            Some(PlaylistFault::NotPlaylist)
        } else if filler_playlist(body@) || placeholder(body@) {
            Some(PlaylistFault::Placeholder)
        } else {
            None
        },
{
    if str_starts_with(body, "#EXTM3U") || str_has(content_type, "mpegurl") || str_has(content_type, "m3u8") {
        if looks_like_placeholder_playlist(body) || is_placeholder_manifest(body) {
            Some(PlaylistFault::Placeholder)
        } else {
            None
        }
    } else {
        Some(PlaylistFault::NotPlaylist)
    }
}

/// Numbers with commas.
pub open spec fn number_list(b: Seq<u8>) -> Seq<char>
    decreases b.len(),
{
    if b.len() == 0 {
        Seq::empty()
    } else if b.len() == 1 {
        decimal(b[0] as nat)
    } else {
        number_list(b.drop_last()) + ", "@ + decimal(b.last() as nat)
    }
}

/// The first sixteen bytes, as a message shows them.
pub open spec fn head_text(b: Seq<u8>) -> Seq<char> {
    if b.len() >= 16 {
        "Some(["@ + number_list(b.take(16)) + "])"@
    } else {
        "None"@
    }
}

/// What the log says of a playlist fault.
pub open spec fn fault_text(f: PlaylistFault, content_type: Seq<char>, b: Seq<u8>) -> Seq<char> {
    match f {
        PlaylistFault::Placeholder => "upstream returned a placeholder/black playlist (stream unavailable on this source)"@,
        PlaylistFault::NotPlaylist => "upstream did not return a playlist (content-type="@ + content_type + ", first bytes="@
            + head_text(b) + ")"@,
    }
}

fn push_head(out: &mut String, bytes: &[u8])
    ensures
        final(out)@ == old(out)@ + head_text(bytes@),
{
    if bytes.len() < 16 {
        push_text(out, "None");
        return;
    }
    let ghost b = bytes@.take(16);
    push_text(out, "Some([");
    let ghost start = out@;
    let mut i: usize = 0;
    proof {
        assert(start + number_list(b.take(0)) =~= start);
    }
    while i < 16
        invariant
            i <= 16,
            bytes@.len() >= 16,
            b == bytes@.take(16),
            out@ == start + number_list(b.take(i as int)),
        decreases 16 - i,
    {
        let ghost was = out@;
        if i > 0 {
            push_text(out, ", ");
        }
        push_decimal(out, bytes[i] as u64);
        proof {
            assert(b.take(i + 1).drop_last() =~= b.take(i as int));
            assert(b.take(i + 1).last() == bytes@[i as int]);
            assert(out@ =~= start + number_list(b.take(i + 1)));
        }
        i = i + 1;
    }
    push_text(out, "])");
    proof {
        assert(b.take(16) =~= b);
        assert(out@ =~= old(out)@ + head_text(bytes@));
    }
}

pub fn playlist_fault_text(f: PlaylistFault, content_type: &str, bytes: &[u8]) -> (r: String)
    ensures
        r@ == fault_text(f, content_type@, bytes@),
{
    match f {
        PlaylistFault::Placeholder => owned("upstream returned a placeholder/black playlist (stream unavailable on this source)"),
        PlaylistFault::NotPlaylist => {
            let mut s = owned("upstream did not return a playlist (content-type=");
            push_text(&mut s, content_type);
            push_text(&mut s, ", first bytes=");
            push_head(&mut s, bytes);
            push_text(&mut s, ")");
            s
        },
    }
}

/// What the log says of a URL that leads to a page about abuse.
pub fn abuse_text(url: &str) -> (r: String)
    ensures
        r@ == "upstream redirected to abuse page: "@ + url@,
{
    let mut s = owned("upstream redirected to abuse page: ");
    push_text(&mut s, url);
    s
}

// --- Audio ----------------------------------------------------------------------------------------

/// A content type, in lower case, that audio may have.
pub open spec fn audio_type(t: Seq<char>) -> bool {
    starts_with(t, "audio/"@) || contains(t, "mpeg"@) || contains(t, "aacp"@) || contains(t, "aac"@) || t
        == "application/ogg"@ || t.len() == 0 || t == "application/octet-stream"@
}

/// Whether audio may have the content type, which is in lower case.
pub fn looks_audio(t: &str) -> (r: bool)
    ensures
        r == audio_type(t@),
{
    str_starts_with(t, "audio/") || str_has(t, "mpeg") || str_has(t, "aacp") || str_has(t, "aac") || str_eq(
        t,
        "application/ogg",
    ) || t.is_empty() || str_eq(t, "application/octet-stream")
}

/// What is wrong with a reply that should be audio.
pub fn judge_audio(content_type: &str) -> (r: Result<(), String>)
    ensures
        match r {
            Ok(_) => audio_type(lowercase(content_type@)),
            Err(e) => !audio_type(lowercase(content_type@)) && e@ == "non-audio content-type: "@ + lowercase(content_type@),
        },
{
    let t = to_lowercase(content_type);
    if looks_audio(&t) {
        Ok(())
    } else {
        let mut e = owned("non-audio content-type: ");
        push_text(&mut e, &t);
        Err(e)
    }
}

// --- Checks behind a play -------------------------------------------------------------------------

/// What a check behind a play found.
#[derive(Debug, Clone, Copy, PartialEq, Eq, Structural)]
pub enum CheckFault {
    BadStatus,
    Abuse,
    NotPlaylist,
    Placeholder,
    NotText,
    NoReference,
    NotResolved,
    /// The segment has no bytes.
    Empty,
}

/// Host and path of a URL.
pub open spec fn host_and_path(url: Seq<char>) -> (Option<Seq<char>>, Seq<char>) {
    match url_parts(url) {
        Some((scheme, host, path)) => (host, path),
        None => (None, Seq::empty()),
    }
}

fn read_host_and_path(url: &str) -> (r: (Option<String>, String))
    ensures
        (opt_text(r.0), r.1@) == host_and_path(url@),
{
    match read_url(url) {
        Some((scheme, host, path)) => (host, path),
        None => {
            let none = String::new();
            proof {
                assert(none@ =~= Seq::<char>::empty());
            }
            (None, none)
        },
    }
}

/// What the status and the host of a reply tell.
pub open spec fn reply_fault(status: u16, host: Option<Seq<char>>) -> Option<CheckFault> {
    if !went_well(status) {
        Some(CheckFault::BadStatus)
    } else if abuse_host(host) {
        Some(CheckFault::Abuse)
    } else {
        None
    }
}

/// What the status of a reply and the host that it came from tell.
pub fn check_reply_from(status: u16, host: &Option<String>) -> (r: Option<CheckFault>)
    ensures
        r == reply_fault(status, opt_text(*host)),
{
    if !is_fine(status) {
        Some(CheckFault::BadStatus)
    } else if is_abuse_host(host) {
        Some(CheckFault::Abuse)
    } else {
        None
    }
}

/// What the status and the URL of a reply tell.
pub fn check_reply(status: u16, url: &str) -> (r: Option<CheckFault>)
    ensures
        r == reply_fault(status, host_and_path(url@).0),
{
    check_reply_from(status, &read_host_and_path(url).0)
}

/// The first seven bytes spell `#EXTM3U`.
pub open spec fn begins_playlist(b: Seq<u8>) -> bool {
    b.len() >= 7 && valid_utf8(b.take(7)) && starts_with(decode_utf8(b.take(7)), "#EXTM3U"@)
}

/// What the body of a playlist tells.
pub open spec fn body_fault(b: Seq<u8>) -> Option<CheckFault> {
    if !begins_playlist(b) {
        Some(CheckFault::NotPlaylist)
    } else if valid_utf8(b) && filler_playlist(decode_utf8(b)) {
        Some(CheckFault::Placeholder)
    } else {
        None
    }
}

pub fn check_body(bytes: &[u8]) -> (r: Option<CheckFault>)
    ensures
        r == body_fault(bytes@),
{
    if bytes.len() < 7 {
        return Some(CheckFault::NotPlaylist);
    }
    let head = slice_to_vec(vstd::slice::slice_subrange(bytes, 0, 7));
    proof {
        assert(head@ =~= bytes@.take(7));
    }
    let begins = match from_utf8(head) {
        Some(h) => str_starts_with(&h, "#EXTM3U"),
        None => false,
    };
    if !begins {
        return Some(CheckFault::NotPlaylist);
    }
    match from_utf8(slice_to_vec(bytes)) {
        Some(t) => if looks_like_placeholder_playlist(&t) {
            Some(CheckFault::Placeholder)
        } else {
            None
        },
        None => None,
    }
}

/// The first reference of a playlist.
pub open spec fn first_reference(b: Seq<u8>) -> Result<Seq<char>, CheckFault> {
    if !valid_utf8(b) {
        Err(CheckFault::NotText)
    } else {
        match reference_from(lines(decode_utf8(b)), 0) {
            Some(t) => Ok(t),
            None => Err(CheckFault::NoReference),
        }
    }
}

/// The first reference of a playlist.
pub fn read_first_reference(bytes: &[u8]) -> (r: Result<String, CheckFault>)
    ensures
        match r {
            Ok(t) => first_reference(bytes@) == Ok::<Seq<char>, CheckFault>(t@),
            Err(e) => first_reference(bytes@) == Err::<Seq<char>, CheckFault>(e),
        },
{
    match from_utf8(slice_to_vec(bytes)) {
        Some(t) => match pick_first_uri_in_playlist(&t) {
            Some(u) => Ok(u),
            None => Err(CheckFault::NoReference),
        },
        None => Err(CheckFault::NotText),
    }
}

/// The URL of the first reference of a playlist that came from `url`.
pub open spec fn first_target(url: Seq<char>, b: Seq<u8>) -> Result<Seq<char>, CheckFault> {
    match first_reference(b) {
        Ok(t) => match url_joined(url, t) {
            Some(u) => Ok(u),
            None => Err(CheckFault::NotResolved),
        },
        Err(e) => Err(e),
    }
}

/// The URL to fetch to see whether the segments of a playlist can be had.
pub fn segment_target(url: &str, bytes: &[u8]) -> (r: Result<String, CheckFault>)
    ensures
        match r {
            Ok(t) => first_target(url@, bytes@) == Ok::<Seq<char>, CheckFault>(t@),
            Err(e) => first_target(url@, bytes@) == Err::<Seq<char>, CheckFault>(e),
        },
{
    match read_first_reference(bytes) {
        Ok(t) => match join_url(url, &t) {
            Some(u) => Ok(u),
            None => Err(CheckFault::NotResolved),
        },
        Err(e) => Err(e),
    }
}

/// What to do about the reply for a segment.
#[derive(Debug, Clone, Copy, PartialEq, Eq, Structural)]
pub enum SegmentCheck {
    Fault(CheckFault),
    /// It is a segment, whose bytes are to be seen.
    Fine,
    /// It is a playlist, whose first segment is to be tried.
    Nested,
}

/// What the reply for a segment comes to, by its content type in lower case.
pub open spec fn segment_check(status: u16, host: Option<Seq<char>>, path: Seq<char>, content_type: Seq<char>) -> SegmentCheck {
    match reply_fault(status, host) {
        Some(f) => SegmentCheck::Fault(f),
        None => if contains(content_type, "mpegurl"@) || contains(content_type, "m3u8"@) || ends_with(path, ".m3u8"@) {
            SegmentCheck::Nested
        } else if succeeded(status) {
            SegmentCheck::Fine
        } else {
            SegmentCheck::Fault(CheckFault::BadStatus)
        },
    }
}

/// What the reply for a segment comes to, by its content type in lower case.
pub fn check_segment_from(status: u16, host: &Option<String>, path: &str, content_type: &str) -> (r: SegmentCheck)
    ensures
        r == segment_check(status, opt_text(*host), path@, content_type@),
{
    match check_reply_from(status, host) {
        Some(f) => SegmentCheck::Fault(f),
        None => if str_has(content_type, "mpegurl") || str_has(content_type, "m3u8") || is_suffix(&chars_of(path), ".m3u8") {
            SegmentCheck::Nested
        } else if is_success(status) {
            SegmentCheck::Fine
        } else {
            SegmentCheck::Fault(CheckFault::BadStatus)
        },
    }
}

/// What the reply for a segment comes to.
pub fn check_segment(status: u16, url: &str, content_type: &str) -> (r: SegmentCheck)
    ensures
        r == segment_check(status, host_and_path(url@).0, host_and_path(url@).1, lowercase(content_type@)),
{
    let (host, path) = read_host_and_path(url);
    check_segment_from(status, &host, &path, &to_lowercase(content_type))
}

/// A reply is bad unless its status is of the two hundreds or three hundreds, and abuse where its
/// host says so.
pub proof fn law_replies_are_judged_by_status_and_host(status: u16, host: Seq<char>)
    ensures
        status < 200 || status >= 400 ==> reply_fault(status, Some(host)) == Some(CheckFault::BadStatus) && reply_fault(
            status,
            None,
        ) == Some(CheckFault::BadStatus),
        200 <= status < 400 ==> reply_fault(status, None) is None,
        200 <= status < 400 && contains(host, "abuse"@) ==> reply_fault(status, Some(host)) == Some(CheckFault::Abuse),
        200 <= status < 400 && !contains(host, "abuse"@) && !contains(host, "cloudflare-terms-of-service-abuse"@)
            ==> reply_fault(status, Some(host)) is None,
{
}

/// What comes for a segment is a playlist by its type or its name, and else a segment, if the reply
/// brings it.
pub proof fn law_segments_are_told_from_playlists(status: u16, path: Seq<char>, content_type: Seq<char>)
    ensures
        status < 200 || status >= 400 ==> segment_check(status, None, path, content_type) == SegmentCheck::Fault(
            CheckFault::BadStatus,
        ),
        200 <= status < 400 && (contains(content_type, "mpegurl"@) || contains(content_type, "m3u8"@) || ends_with(
            path,
            ".m3u8"@,
        )) ==> segment_check(status, None, path, content_type) == SegmentCheck::Nested,
        200 <= status < 300 && !contains(content_type, "mpegurl"@) && !contains(content_type, "m3u8"@) && !ends_with(
            path,
            ".m3u8"@,
        ) ==> segment_check(status, None, path, content_type) == SegmentCheck::Fine,
        300 <= status < 400 && !contains(content_type, "mpegurl"@) && !contains(content_type, "m3u8"@) && !ends_with(
            path,
            ".m3u8"@,
        ) ==> segment_check(status, None, path, content_type) == SegmentCheck::Fault(CheckFault::BadStatus),
{
}

/// A playlist is told by its first line or its type.
pub proof fn law_playlists_are_told_by_line_or_type(content_type: Seq<char>, rest: Seq<char>)
    ensures
        is_playlist(content_type, "#EXTM3U"@ + rest),
        contains(content_type, "mpegurl"@) ==> is_playlist(content_type, rest),
        rest.len() < 7 && !contains(content_type, "mpegurl"@) && !contains(content_type, "m3u8"@) ==> !is_playlist(
            content_type,
            rest,
        ),
{
    reveal_strlit("#EXTM3U");
    let b = "#EXTM3U"@ + rest;
    assert(b.subrange(0, 7) =~= "#EXTM3U"@);
}

/// Audio has a type of audio, or none.
pub proof fn law_audio_is_told_by_its_type(t: Seq<char>)
    ensures
        audio_type("audio/"@ + t),
        audio_type(Seq::empty()),
        contains(t, "mpeg"@) || contains(t, "aac"@) ==> audio_type(t),
        t.len() > 0 && t[0] == 't' && !contains(t, "mpeg"@) && !contains(t, "aacp"@) && !contains(t, "aac"@) ==> !audio_type(t),
{
    reveal_strlit("audio/");
    reveal_strlit("application/ogg");
    reveal_strlit("application/octet-stream");
    let b = "audio/"@ + t;
    assert(b.subrange(0, 6) =~= "audio/"@);
    assert("audio/"@[0] == 'a' && "application/ogg"@[0] == 'a' && "application/octet-stream"@[0] == 'a');
    if starts_with(t, "audio/"@) {
        assert(t.subrange(0, 6)[0] == 'a');
    }
}

} // verus!
