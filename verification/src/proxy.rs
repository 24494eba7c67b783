//! Which URLs to try for a channel, and in which order.
use vstd::arithmetic::div_mod::lemma_fundamental_div_mod_converse;
use vstd::arithmetic::power2::{lemma2_to64, lemma_pow2_adds, lemma_pow2_pos, pow2};
use vstd::prelude::*;
use crate::blacklist::{Blacklist, good_age, host_bad, second_piece, state_of};
use crate::measured::{MeasuredStore, is_ten_bit, is_text, quality, ten_bit, window};
use crate::order::{ascending, sort_dedup};
use crate::play_log::{AttemptOutcome, AttemptView, EventView, PlayEvent, attempt_views, event_views};
use crate::single::{INFINITE, ONE, SINGLE, Single, half_up, law_bits_go_up_with_numbers, law_equals_divide_to_one};
use crate::single::{law_nothing_by_a_number, law_nothing_times_a_number, law_one_times_a_number};
use crate::single::{law_small_numbers_are_exact, law_small_sums_are_exact, lemma_place_nothing, lemma_product_at_most};
use crate::single::{lemma_product_rises, lemma_quotient_at_most_one, lemma_quotient_rises, lemma_rounded_rises};
use crate::single::{lemma_sum_commutes, lemma_sum_of_parts, lemma_sum_rises, lemma_sum_with_nothing, product};
use crate::single::{quotient, single, sum};
use crate::text::{ascii_alphanumeric, ascii_alphanumerics, ascii_lowercase, before, chars_of, copy_range, find_at, has_text, index_of};
use crate::text::{contains, keep_ascii_alphanumerics, lower_chars, occurs_at, opt_text, owned, parse_u64, split, split_chars, string_of};
use crate::text::{texts, to_u64, trim, trim_chars, views};

verus! {

/// Ten-bit HEVC counts for its depth.
pub const TV_DECODES_HEVC_MAIN10: bool = true;

/// A URL to try.
#[derive(Debug)]
pub struct Candidate {
    pub url: String,
    pub host: String,
    pub stream_id: u64,
}

/// The contents of a `Candidate`.
pub struct CandView {
    pub url: Seq<char>,
    pub host: Seq<char>,
    pub stream_id: u64,
}

impl View for Candidate {
    type V = CandView;

    open spec fn view(&self) -> CandView {
        CandView { url: self.url@, host: self.host@, stream_id: self.stream_id }
    }
}

impl Clone for Candidate {
    fn clone(&self) -> (r: Self)
        ensures
            r@ == self@,
    {
        Candidate { url: self.url.clone(), host: self.host.clone(), stream_id: self.stream_id }
    }
}

/// The contents of each candidate.
pub open spec fn cand_views(v: Seq<Candidate>) -> Seq<CandView> {
    v.map_values(|c: Candidate| c@)
}

// --- Client capabilities ---------------------------------------------------------------------

/// The tags in a list with commas, in lower case and without white space.
pub open spec fn tags(raw: Seq<char>) -> Seq<Seq<char>> {
    split(raw, ',').map_values(|s: Seq<char>| ascii_lowercase(trim(s)))
}

fn read_tags(raw: &str) -> (r: Vec<String>)
    ensures
        texts(r@) == tags(raw@),
{
    let parts = split_chars(&chars_of(raw), ',');
    let ghost all = views(parts@);
    let mut out: Vec<String> = Vec::new();
    let mut i: usize = 0;
    while i < parts.len()
        invariant
            i <= parts@.len(),
            all == views(parts@),
            texts(out@) == all.take(i as int).map_values(|s: Seq<char>| ascii_lowercase(trim(s))),
        decreases parts@.len() - i,
    {
        let ghost was = texts(out@);
        let t = string_of(&lower_chars(trim_chars(&parts[i])));
        out.push(t);
        proof {
            assert(all[i as int] == parts@[i as int]@);
            assert(texts(out@) =~= was.push(t@));
            assert(texts(out@) =~= all.take(i + 1).map_values(|s: Seq<char>| ascii_lowercase(trim(s))));
        }
        i = i + 1;
    }
    proof {
        assert(all.take(i as int) =~= all);
    }
    out
}

/// Whether the tag is in the list.
pub fn client_has_cap(caps: &Option<String>, tag: &str) -> (r: bool)
    ensures
        r == (*caps matches Some(raw) && tags(raw@).contains(tag@)),
{
    match caps {
        Some(raw) => has_text(&read_tags(raw), tag),
        None => false,
    }
}

/// The tags in the list once each, in alphabetical order; none where there are none.
pub fn parse_caps_list(caps: &Option<String>) -> (r: Option<Vec<String>>)
    ensures
        r is Some <==> (*caps matches Some(raw) && exists|t: Seq<char>| #[trigger] tags(raw@).contains(t) && t.len() > 0),
        r matches Some(list) ==> ascending(texts(list@)) && forall|t: Seq<char>| #[trigger]
            texts(list@).contains(t) == (t.len() > 0 && tags((*caps)->0@).contains(t)),
{
    let raw = match caps {
        Some(raw) => raw,
        None => {
            return None;
        },
    };
    let all = read_tags(raw);
    let ghost ts = texts(all@);
    let mut some: Vec<String> = Vec::new();
    let mut i: usize = 0;
    proof {
        assert(texts(some@).len() == 0);
    }
    while i < all.len()
        invariant
            i <= all@.len(),
            ts == texts(all@),
            forall|t: Seq<char>| #[trigger] texts(some@).contains(t) == (t.len() > 0 && ts.take(i as int).contains(t)),
        decreases all@.len() - i,
    {
        let ghost was = texts(some@);
        if !all[i].as_str().is_empty() {
            some.push(all[i].clone());
        }
        proof {
            let now = texts(some@);
            let x = all@[i as int]@;
            assert(ts[i as int] == x);
            assert forall|t: Seq<char>| #[trigger] now.contains(t) == (t.len() > 0 && ts.take(i + 1).contains(t)) by {
                let a = ts.take(i as int);
                let b = ts.take(i + 1);
                assert(b[i as int] == x);
                assert(b.contains(t) == (a.contains(t) || t == x)) by {
                    if a.contains(t) {
                        let k = choose|k: int| 0 <= k < a.len() && a[k] == t;
                        assert(b[k] == t);
                    }
                    if b.contains(t) && t != x {
                        let k = choose|k: int| 0 <= k < b.len() && b[k] == t;
                        assert(a[k] == t);
                    }
                }
                assert(was.contains(t) == (t.len() > 0 && a.contains(t)));
                if x.len() > 0 {
                    assert(now =~= was.push(x));
                    assert(now[was.len() as int] == x);
                    if was.contains(t) {
                        let k = choose|k: int| 0 <= k < was.len() && was[k] == t;
                        assert(now[k] == t);
                    }
                    if now.contains(t) && t != x {
                        let k = choose|k: int| 0 <= k < now.len() && now[k] == t;
                        assert(was[k] == t);
                    }
                }
            }
        }
        i = i + 1;
    }
    proof {
        assert(ts.take(i as int) =~= ts);
    }
    if some.len() == 0 {
        proof {
            assert forall|t: Seq<char>| #[trigger] tags(raw@).contains(t) && t.len() > 0 implies false by {
                assert(texts(some@).contains(t));
            }
        }
        None
    } else {
        proof {
            let t = some@[0]@;
            assert(texts(some@)[0] == t);
            assert(texts(some@).contains(t));
        }
        Some(sort_dedup(some))
    }
}

/// The letters and digits of a play id, at most 32.
pub open spec fn clean_pid(s: Seq<char>) -> Seq<char> {
    let a = ascii_alphanumerics(s);
    if a.len() > 32 {
        a.take(32)
    } else {
        a
    }
}

pub fn sanitize_pid(s: &str) -> (r: String)
    ensures
        r@ == clean_pid(s@),
{
    let a = chars_of(&keep_ascii_alphanumerics(s));
    if a.len() > 32 {
        let head = copy_range(&a, 0, 32);
        proof {
            assert(head@ =~= a@.take(32));
        }
        string_of(&head)
    } else {
        string_of(&a)
    }
}

// --- Stream ids in URLs ---------------------------------------------------------------------------

/// The number in part `k` behind `mark`, up to a point.
pub open spec fn number_behind(url: Seq<char>, mark: Seq<char>, k: int) -> Option<u64> {
    match second_piece(url, mark) {
        Some(p) => if k < split(p, '/').len() {
            parse_u64(before(split(p, '/')[k], '.'))
        } else {
            None
        },
        None => None,
    }
}

/// The stream id in the URL of a live stream or of a recording.
pub open spec fn source_stream_id(url: Seq<char>) -> Option<u64> {
    match number_behind(url, "/live/"@, 2) {
        Some(n) => Some(n),
        None => number_behind(url, "/timeshift/"@, 4),
    }
}

fn read_number_behind(url: &[char], mark: &str, k: usize) -> (r: Option<u64>)
    ensures
        r == number_behind(url@, mark@, k as int),
{
    let pat = chars_of(mark);
    proof {
        assert(url@.len() == url.len());
    }
    let i: usize = match find_at(url, &pat, 0) {
        Some(i) => i,
        None => {
            return None;
        },
    };
    let rest = copy_range(url, i + pat.len(), url.len());
    proof {
        assert(rest@ =~= url@.skip(i + pat@.len()));
    }
    let piece = match find_at(&rest, &pat, 0) {
        Some(j) => {
            proof {
                assert(rest@.subrange(0, j as int) =~= rest@.take(j as int));
            }
            copy_range(&rest, 0, j)
        },
        None => rest,
    };
    let parts = split_chars(&piece, '/');
    proof {
        assert(parts@.len() == split(piece@, '/').len());
    }
    if k >= parts.len() {
        return None;
    }
    let last = &parts[k];
    let e = index_of(last, '.', 0);
    proof {
        assert(last@ == split(piece@, '/')[k as int]);
        assert(last@.skip(0) =~= last@);
        assert(last@.subrange(0, e as int) =~= before(last@, '.'));
    }
    to_u64(&copy_range(last, 0, e))
}

pub fn stream_id_from_source_url(url: &str) -> (r: Option<u64>)
    ensures
        r == source_stream_id(url@),
{
    let a = chars_of(url);
    match read_number_behind(&a, "/live/", 2) {
        Some(n) => Some(n),
        None => read_number_behind(&a, "/timeshift/", 4),
    }
}

// --- Ranks ------------------------------------------------------------------------------------------

/// How good a television candidate is, the weightiest first: cool-off, host, whether it was
/// measured, how often it worked, whether it is the one that last worked; then dynamic range,
/// bits per pixel, pixels, codec, frame rate and bit rate.
pub type TvRankKey = (i32, i32, i32, i32, i32, i32, i32, i64, i32, i32, i32);

pub type TvRankKeyOpaque = TvRankKey;

/// How good a radio candidate is, the weightiest first: as for television up to whether it is
/// the one that last worked; then bit rate, sample rate and channels.
pub type RadioRankKey = (i32, i32, i32, i32, i32, i32, i32, i32);

/// Two for high dynamic range, one for ten bits.
pub open spec fn hdr_value(pix_fmt: Option<Seq<char>>, transfer: Option<Seq<char>>) -> i32 {
    if transfer == Some("smpte2084"@) || transfer == Some("arib-std-b67"@) {
        2
    } else if ten_bit(pix_fmt) {
        1
    } else {
        0
    }
}

pub fn hdr_rank(pix_fmt: &Option<String>, transfer: &Option<String>) -> (r: i32)
    ensures
        r == hdr_value(opt_text(*pix_fmt), opt_text(*transfer)),
{
    if is_text(transfer, "smpte2084") || is_text(transfer, "arib-std-b67") {
        2
    } else if is_ten_bit(pix_fmt) {
        1
    } else {
        0
    }
}

/// Kilobits per thousand pixels, in steps; minus one where they are unknown.
pub open spec fn bpp_value(kbps: Option<u32>, w: u32, h: u32) -> int {
    let kpx = (w * h) / 1000;
    match kbps {
        Some(b) => if kpx == 0 {
            -1
        } else {
            let x = (b * 100) / kpx;
            if x >= 300 {
                4
            } else if x >= 200 {
                3
            } else if x >= 100 {
                2
            } else if x >= 50 {
                1
            } else {
                0
            }
        },
        None => -1,
    }
}

pub proof fn lemma_pixels(w: u32, h: u32)
    ensures
        w * h <= u64::MAX,
        w * h >= 0,
{
    assert(w * h <= 0xffff_ffff * 0xffff_ffff && w * h >= 0) by (nonlinear_arith)
        requires
            0 <= w <= 0xffff_ffff,
            0 <= h <= 0xffff_ffff,
    ;
}

pub fn bpp_bucket(kbps: Option<u32>, w: u32, h: u32) -> (r: i32)
    ensures
        r == bpp_value(kbps, w, h),
{
    proof {
        lemma_pixels(w, h);
    }
    let pixels_k: u64 = (w as u64 * h as u64) / 1000;
    if pixels_k == 0 {
        return -1;
    }
    match kbps {
        Some(b) => {
            let x: u64 = (b as u64 * 100) / pixels_k;
            if x >= 300 {
                4
            } else if x >= 200 {
                3
            } else if x >= 100 {
                2
            } else if x >= 50 {
                1
            } else {
                0
            }
        },
        None => -1,
    }
}

/// The newer the codec, the higher.
pub open spec fn codec_value(c: Option<Seq<char>>) -> i32 {
    if c == Some("av1"@) {
        4
    } else if c == Some("hevc"@) || c == Some("h265"@) {
        3
    } else if c == Some("h264"@) {
        2
    } else if c == Some("mpeg2video"@) {
        1
    } else {
        0
    }
}

pub fn codec_rank(c: &Option<String>) -> (r: i32)
    ensures
        r == codec_value(opt_text(*c)),
{
    if is_text(c, "av1") {
        4
    } else if is_text(c, "hevc") || is_text(c, "h265") {
        3
    } else if is_text(c, "h264") {
        2
    } else if is_text(c, "mpeg2video") {
        1
    } else {
        0
    }
}

/// The bits of 24.
pub const TWENTY_FOUR: u32 = 0x41c0_0000;

/// The bits of 48.
pub const FORTY_EIGHT: u32 = 0x4240_0000;

/// Two from 48 frames per second on, one from 24 on; nothing for what is negative or no number.
pub open spec fn fps_value(f: Option<Single>) -> i32 {
    match f {
        Some(r) => if FORTY_EIGHT <= r.bits <= INFINITE {
            2
        } else if TWENTY_FOUR <= r.bits <= INFINITE {
            1
        } else {
            0
        },
        None => 0,
    }
}

pub fn fps_rank(f: Option<Single>) -> (r: i32)
    ensures
        r == fps_value(f),
{
    match f {
        Some(r) => if FORTY_EIGHT <= r.bits && r.bits <= INFINITE {
            2
        } else if TWENTY_FOUR <= r.bits && r.bits <= INFINITE {
            1
        } else {
            0
        },
        None => 0,
    }
}

/// The bits of nine tenths.
pub const NINE_TENTHS: u32 = 0x3f66_6666;

/// The bits of ten.
pub const TEN: u32 = 0x4120_0000;

/// The sum of the weights of the attempts that worked, the sum of all weights, and the weight
/// of the next attempt, which is nine tenths of the one before, in single precision.
pub open spec fn weights(outcomes: Seq<bool>) -> (Single, Single, Single)
    decreases outcomes.len(),
{
    if outcomes.len() == 0 {
        (Single { bits: 0 }, Single { bits: 0 }, Single { bits: ONE })
    } else {
        let (good, all, w) = weights(outcomes.drop_last());
        (
            if outcomes.last() {
                sum(good, w)
            } else {
                good
            },
            sum(all, w),
            product(w, Single { bits: NINE_TENTHS }),
        )
    }
}

/// How often it worked, of ten times, to the nearest; five where nothing is known.
pub open spec fn success_value(outcomes: Seq<bool>) -> i32 {
    let (good, all, w) = weights(outcomes);
    if all.bits == 0 {
        5
    } else {
        let tenths = product(quotient(good, all), Single { bits: TEN }).rounded();
        if tenths <= i32::MAX {
            tenths as i32
        } else {
            i32::MAX
        }
    }
}

/// What worked weighs no more than all.
proof fn lemma_weights(outcomes: Seq<bool>)
    ensures
        weights(outcomes).0.bits <= weights(outcomes).1.bits <= INFINITE,
        weights(outcomes).2.bits <= INFINITE,
    decreases outcomes.len(),
{
    if outcomes.len() > 0 {
        let (good, all, w) = weights(outcomes.drop_last());
        lemma_weights(outcomes.drop_last());
        lemma_sum_rises(good, all, w);
        lemma_sum_of_parts(all, w);
    }
}

/// A stream worked between no time and ten times of ten.
pub proof fn law_success_is_of_ten(outcomes: Seq<bool>)
    ensures
        0 <= success_value(outcomes) <= 10,
{
    let (good, all, w) = weights(outcomes);
    let ten = Single { bits: TEN };
    lemma_weights(outcomes);
    lemma_ten(ten);
    if all.finite() && all.bits > 0 {
        lemma_quotient_at_most_one(good, all);
    }
    let share = quotient(good, all);
    if share.bits <= ONE {
        lemma_product_at_most(share, ten);
        lemma_rounded_rises(product(share, ten), ten);
    }
}

/// Ten is a whole number.
proof fn lemma_ten(ten: Single)
    requires
        ten.bits == TEN,
    ensures
        ten.rounded() == 10,
{
    lemma_pow2_adds(20, 129);
    lemma2_to64();
    let p = pow2(149);
    assert(0xa0_0000 * pow2(129) == 10 * p) by (nonlinear_arith)
        requires
            p == 0x10_0000 * pow2(129),
    ;
    assert(TEN as nat / 0x80_0000 == 130 && TEN as nat % 0x80_0000 == 0x20_0000);
    assert(ten.units() == 0xa0_0000 * pow2(129));
    lemma_pow2_pos(149);
    lemma_fundamental_div_mod_converse((2 * (10 * p) + p) as int, (2 * p) as int, 10, p as int);
    assert(half_up(10 * p, p) == 10);
}

/// The attempt was at the stream on the host.
pub open spec fn attempt_counts(a: AttemptView, stream_id: u64, host: Seq<char>) -> bool {
    a.host == host && source_stream_id(a.url) == Some(stream_id)
}

/// How the attempts at the stream on the host went, in their order.
pub open spec fn attempt_outcomes(s: Seq<AttemptView>, stream_id: u64, host: Seq<char>) -> Seq<bool>
    decreases s.len(),
{
    if s.len() == 0 {
        Seq::empty()
    } else {
        let before = attempt_outcomes(s.drop_last(), stream_id, host);
        if attempt_counts(s.last(), stream_id, host) {
            before.push(s.last().outcome is Played)
        } else {
            before
        }
    }
}

/// How all attempts at the stream on the host went, in the order of the log.
pub open spec fn logged_outcomes(log: Seq<EventView>, stream_id: u64, host: Seq<char>) -> Seq<bool>
    decreases log.len(),
{
    if log.len() == 0 {
        Seq::empty()
    } else {
        logged_outcomes(log.drop_last(), stream_id, host) + attempt_outcomes(log.last().attempts, stream_id, host)
    }
}

/// How often a stream on a host worked, of ten times.
pub fn success_bucket(stream_id: u64, host: &str, log_snap: &[PlayEvent]) -> (r: i32)
    ensures
        r == success_value(logged_outcomes(event_views(log_snap@), stream_id, host@)),
        0 <= r <= 10,
{
    let name = owned(host);
    let ghost log = event_views(log_snap@);
    let ghost mut seen: Seq<bool> = Seq::empty();
    let mut good = Single { bits: 0 };
    let mut all = Single { bits: 0 };
    let mut w = Single { bits: ONE };
    let mut i: usize = 0;
    while i < log_snap.len()
        invariant
            i <= log_snap@.len(),
            log == event_views(log_snap@),
            name@ == host@,
            seen == logged_outcomes(log.take(i as int), stream_id, host@),
            (good, all, w) == weights(seen),
        decreases log_snap@.len() - i,
    {
        let ev = &log_snap[i];
        let ghost start = seen;
        let ghost atts = attempt_views(ev.attempts@);
        proof {
            assert(log.take(i + 1).drop_last() =~= log.take(i as int));
            assert(log.take(i + 1).last() == ev@);
            assert(start + attempt_outcomes(atts.take(0), stream_id, host@) =~= start);
        }
        let mut j: usize = 0;
        while j < ev.attempts.len()
            invariant
                j <= ev.attempts@.len(),
                atts == attempt_views(ev.attempts@),
                name@ == host@,
                seen == start + attempt_outcomes(atts.take(j as int), stream_id, host@),
                (good, all, w) == weights(seen),
            decreases ev.attempts@.len() - j,
        {
            let att = &ev.attempts[j];
            proof {
                assert(atts.take(j + 1).drop_last() =~= atts.take(j as int));
                assert(atts.take(j + 1).last() == att@);
            }
            let same_id = match stream_id_from_source_url(&att.url) {
                Some(n) => n == stream_id,
                None => false,
            };
            if att.host == name && same_id {
                let ok = match att.outcome {
                    AttemptOutcome::Played => true,
                    _ => false,
                };
                let ghost was = seen;
                proof {
                    seen = seen.push(ok);
                    assert(seen.drop_last() =~= was);
                    assert(seen =~= start + attempt_outcomes(atts.take(j + 1), stream_id, host@));
                }
                if ok {
                    good = good.plus(w);
                }
                all = all.plus(w);
                w = w.times(Single { bits: NINE_TENTHS });
            }
            j = j + 1;
        }
        proof {
            assert(atts.take(j as int) =~= atts);
        }
        i = i + 1;
    }
    proof {
        assert(log.take(i as int) =~= log);
        law_success_is_of_ten(seen);
    }
    if all.bits == 0 {
        return 5;
    }
    let tenths: u32 = good.divided_by(all).times(Single { bits: TEN }).to_whole();
    if tenths <= i32::MAX as u32 {
        tenths as i32
    } else {
        i32::MAX
    }
}

/// Two for a host that is bad.
pub fn host_penalty(host: &str, bl: &Blacklist, now: i128) -> (r: i32)
    requires
        bl.wf(),
    ensures
        r == bad_host_value(host@, *bl, now),
{
    if !host.is_empty() && bl.is_host_bad(host, now) {
        2
    } else {
        0
    }
}

/// Two for a host that is bad.
pub open spec fn bad_host_value(host: Seq<char>, bl: Blacklist, now: i128) -> i32 {
    if host.len() > 0 && host_bad(bl@.hosts, bl.config, host, now) {
        2
    } else {
        0
    }
}

/// Three, two or one for the URL that last worked for the channel, less than an hour, six hours
/// or a day ago.
pub open spec fn bonus(age: Option<u64>) -> i32 {
    match age {
        Some(a) => if a < 3600 {
            3
        } else if a < 21600 {
            2
        } else if a < 86400 {
            1
        } else {
            0
        },
        None => 0,
    }
}

pub fn lkg_bonus(channel_key: &str, url: &str, bl: &Blacklist, now: i128) -> (r: i32)
    ensures
        r == bonus(good_age(bl@.good, channel_key@, url@, now)),
{
    match bl.last_known_good_age(channel_key, url, now) {
        Some(a) => if a < 3600 {
            3
        } else if a < 21600 {
            2
        } else if a < 86400 {
            1
        } else {
            0
        },
        None => 0,
    }
}

/// The longer ago a URL worked, the less that counts, and never less than nothing.
pub proof fn law_bonus_fades(sooner: u64, later: u64)
    requires
        sooner <= later,
    ensures
        bonus(Some(sooner)) >= bonus(Some(later)) >= bonus(None),
{
}

/// From 320 kilobits per second on four, and so on down to 64.
pub fn audio_kbps_bucket(kbps: Option<u32>) -> (r: i32)
    ensures
        r == audio_kbps_value(kbps),
{
    match kbps {
        Some(k) => if k >= 320 {
            4
        } else if k >= 192 {
            3
        } else if k >= 128 {
            2
        } else if k >= 64 {
            1
        } else {
            0
        },
        None => 0,
    }
}

pub open spec fn audio_kbps_value(kbps: Option<u32>) -> i32 {
    match kbps {
        Some(k) => if k >= 320 {
            4
        } else if k >= 192 {
            3
        } else if k >= 128 {
            2
        } else if k >= 64 {
            1
        } else {
            0
        },
        None => 0,
    }
}

pub open spec fn audio_sample_rate_value(hz: Option<u32>) -> i32 {
    if hz == Some(48000u32) {
        3
    } else if hz == Some(44100u32) {
        2
    } else if hz == Some(32000u32) {
        1
    } else {
        0
    }
}

pub fn audio_sample_rate_bucket(hz: Option<u32>) -> (r: i32)
    ensures
        r == audio_sample_rate_value(hz),
{
    match hz {
        Some(n) => if n == 48000 {
            3
        } else if n == 44100 {
            2
        } else if n == 32000 {
            1
        } else {
            0
        },
        None => 0,
    }
}

pub open spec fn audio_channels_value(channels: Option<u8>) -> i32 {
    if channels == Some(2u8) {
        2
    } else if channels == Some(1u8) {
        1
    } else {
        0
    }
}

pub fn audio_channels_bucket(channels: Option<u8>) -> (r: i32)
    ensures
        r == audio_channels_value(channels),
{
    match channels {
        Some(n) => if n == 2 {
            2
        } else if n == 1 {
            1
        } else {
            0
        },
        None => 0,
    }
}

/// An unsigned number read as a signed one of the same width.
pub open spec fn signed_64(n: int) -> i64 {
    if n <= i64::MAX {
        n as i64
    } else {
        (n - 0x1_0000_0000_0000_0000) as i64
    }
}

pub open spec fn signed_32(n: int) -> i32 {
    if n <= i32::MAX {
        n as i32
    } else {
        (n - 0x1_0000_0000) as i32
    }
}

fn to_signed_64(n: u64) -> (r: i64)
    ensures
        r == signed_64(n as int),
{
    if n <= i64::MAX as u64 {
        n as i64
    } else {
        -((u64::MAX - n) as i64) - 1
    }
}

fn to_signed_32(n: u32) -> (r: i32)
    ensures
        r == signed_32(n as int),
{
    if n <= i32::MAX as u32 {
        n as i32
    } else {
        -((u32::MAX - n) as i32) - 1
    }
}

/// What the first five places of a rank hold.
pub open spec fn common_rank(
    key: Seq<char>,
    c: CandView,
    measured: bool,
    bl: Blacklist,
    log: Seq<EventView>,
    now: i128,
) -> (i32, i32, i32, i32, i32) {
    (
        (-(state_of(bl@.urls, c.url).cool_off_step as int)) as i32,
        (-(bad_host_value(c.host, bl, now) as int)) as i32,
        if measured {
            1
        } else {
            0
        },
        success_value(logged_outcomes(log, c.stream_id, c.host)),
        bonus(good_age(bl@.good, key, c.url, now)),
    )
}

/// The rank of a television candidate.
pub open spec fn tv_rank(
    key: Seq<char>,
    c: CandView,
    store: MeasuredStore,
    bl: Blacklist,
    log: Seq<EventView>,
    now: i128,
) -> TvRankKey {
    match quality(window(store@, c.stream_id, c.host)) {
        Some(q) => {
            let a = common_rank(key, c, true, bl, log, now);
            (
                a.0,
                a.1,
                a.2,
                a.3,
                a.4,
                hdr_value(q.pix_fmt, q.color_transfer),
                bpp_value(q.bitrate_kbps, q.width, q.height) as i32,
                signed_64(q.width * q.height),
                codec_value(q.codec),
                fps_value(q.framerate),
                match q.bitrate_kbps {
                    Some(k) => signed_32(k as int),
                    None => 0,
                },
            )
        },
        None => {
            let a = common_rank(key, c, false, bl, log, now);
            (a.0, a.1, a.2, a.3, a.4, 0, 0, 0, 0, 0, 0)
        },
    }
}

pub fn source_rank_key_tv(
    channel_key: &str,
    stream_id: u64,
    url: &str,
    host: &str,
    measured: &MeasuredStore,
    bl: &Blacklist,
    log_snap: &[PlayEvent],
    now: i128,
) -> (r: TvRankKey)
    requires
        bl.wf(),
    ensures
        r == tv_rank(
            channel_key@,
            (CandView { url: url@, host: host@, stream_id }),
            *measured,
            *bl,
            event_views(log_snap@),
            now,
        ),
{
    let success = success_bucket(stream_id, host, log_snap);
    let cool_off: i32 = -bl.cool_off_penalty(url);
    let host_pen: i32 = -host_penalty(host, bl, now);
    let lkg = lkg_bonus(channel_key, url, bl, now);
    match measured.get(stream_id, host) {
        Some(q) => {
            proof {
                lemma_pixels(q.width, q.height);
            }
            let ten = is_ten_bit(&q.pix_fmt);
            let is_hevc = is_text(&q.codec, "hevc");
            let raw = hdr_rank(&q.pix_fmt, &q.color_transfer);
            let hdr = if !TV_DECODES_HEVC_MAIN10 && is_hevc && ten {
                0
            } else {
                raw
            };
            (
                cool_off,
                host_pen,
                1,
                success,
                lkg,
                hdr,
                bpp_bucket(q.bitrate_kbps, q.width, q.height),
                to_signed_64(q.width as u64 * q.height as u64),
                codec_rank(&q.codec),
                fps_rank(q.framerate),
                match q.bitrate_kbps {
                    Some(k) => to_signed_32(k),
                    None => 0,
                },
            )
        },
        None => (cool_off, host_pen, 0, success, lkg, 0, 0, 0, 0, 0, 0),
    }
}

pub fn compute_tv_rank_key(
    channel_key: &str,
    stream_id: u64,
    url: &str,
    host: &str,
    measured: &MeasuredStore,
    blacklist: &Blacklist,
    log_snap: &[PlayEvent],
    now: i128,
) -> (r: TvRankKey)
    requires
        blacklist.wf(),
    ensures
        r == tv_rank(
            channel_key@,
            (CandView { url: url@, host: host@, stream_id }),
            *measured,
            *blacklist,
            event_views(log_snap@),
            now,
        ),
{
    source_rank_key_tv(channel_key, stream_id, url, host, measured, blacklist, log_snap, now)
}

/// The rank of a radio candidate.
pub open spec fn radio_rank(
    key: Seq<char>,
    c: CandView,
    store: MeasuredStore,
    bl: Blacklist,
    log: Seq<EventView>,
    now: i128,
) -> RadioRankKey {
    match quality(window(store@, c.stream_id, c.host)) {
        Some(q) => {
            let a = common_rank(key, c, true, bl, log, now);
            (
                a.0,
                a.1,
                a.2,
                a.3,
                a.4,
                audio_kbps_value(q.bitrate_kbps),
                audio_sample_rate_value(q.sample_rate_hz),
                audio_channels_value(q.audio_channels),
            )
        },
        None => {
            let a = common_rank(key, c, false, bl, log, now);
            (a.0, a.1, a.2, a.3, a.4, 0, 0, 0)
        },
    }
}

pub fn source_rank_key_radio(
    channel_key: &str,
    stream_id: u64,
    url: &str,
    host: &str,
    measured: &MeasuredStore,
    bl: &Blacklist,
    log_snap: &[PlayEvent],
    now: i128,
) -> (r: RadioRankKey)
    requires
        bl.wf(),
    ensures
        r == radio_rank(
            channel_key@,
            (CandView { url: url@, host: host@, stream_id }),
            *measured,
            *bl,
            event_views(log_snap@),
            now,
        ),
{
    let success = success_bucket(stream_id, host, log_snap);
    let cool_off: i32 = -bl.cool_off_penalty(url);
    let host_pen: i32 = -host_penalty(host, bl, now);
    let lkg = lkg_bonus(channel_key, url, bl, now);
    match measured.get(stream_id, host) {
        Some(q) => (
            cool_off,
            host_pen,
            1,
            success,
            lkg,
            audio_kbps_bucket(q.bitrate_kbps),
            audio_sample_rate_bucket(q.sample_rate_hz),
            audio_channels_bucket(q.audio_channels),
        ),
        None => (cool_off, host_pen, 0, success, lkg, 0, 0, 0),
    }
}

// --- What is promised of it -------------------------------------------------------------------

/// One where it holds, or nothing.
pub open spec fn counted(b: bool) -> int {
    if b {
        1
    } else {
        0
    }
}

/// Bits per pixel count by how many of the steps of a half, one, two and three kilobits per
/// thousand pixels are reached.
pub proof fn law_bits_per_pixel_count_in_steps(kbps: u32, w: u32, h: u32)
    ensures
        w * h >= 1000 ==> bpp_value(Some(kbps), w, h) == counted(kbps * 100 >= 50 * ((w * h) / 1000)) + counted(
            kbps * 100 >= 100 * ((w * h) / 1000),
        ) + counted(kbps * 100 >= 200 * ((w * h) / 1000)) + counted(kbps * 100 >= 300 * ((w * h) / 1000)),
        w * h < 1000 ==> bpp_value(Some(kbps), w, h) == -1,
        bpp_value(None, w, h) == -1,
{
    lemma_pixels(w, h);
    let (a, k) = ((kbps * 100) as int, (w * h) / 1000);
    if k > 0 {
        let q = a / k;
        vstd::arithmetic::div_mod::lemma_fundamental_div_mod(a, k);
        let r = a % k;
        assert((q >= 50 <==> a >= 50 * k) && (q >= 100 <==> a >= 100 * k) && (q >= 200 <==> a >= 200 * k) && (q >= 300 <==> a
            >= 300 * k)) by (nonlinear_arith)
            requires
                a == k * q + r,
                0 <= r < k,
        ;
    }
}

/// More bits for the same picture never count for less.
pub proof fn law_more_bits_per_pixel_count_for_more(fewer: u32, more: u32, w: u32, h: u32)
    requires
        fewer <= more,
    ensures
        bpp_value(Some(fewer), w, h) <= bpp_value(Some(more), w, h),
{
    law_bits_per_pixel_count_in_steps(fewer, w, h);
    law_bits_per_pixel_count_in_steps(more, w, h);
}

/// Codecs count in the order of their age, and those that are not known for nothing.
pub proof fn law_newer_codecs_count_for_more(other: Option<Seq<char>>)
    requires
        other != Some("av1"@),
        other != Some("hevc"@),
        other != Some("h265"@),
        other != Some("h264"@),
        other != Some("mpeg2video"@),
    ensures
        codec_value(Some("av1"@)) > codec_value(Some("hevc"@)),
        codec_value(Some("hevc"@)) == codec_value(Some("h265"@)),
        codec_value(Some("h265"@)) > codec_value(Some("h264"@)),
        codec_value(Some("h264"@)) > codec_value(Some("mpeg2video"@)),
        codec_value(Some("mpeg2video"@)) > codec_value(other),
        codec_value(other) == 0,
{
    reveal_strlit("av1");
    reveal_strlit("hevc");
    reveal_strlit("h265");
    reveal_strlit("h264");
    reveal_strlit("mpeg2video");
    assert("av1"@.len() == 3 && "hevc"@.len() == 4 && "h265"@.len() == 4 && "h264"@.len() == 4 && "mpeg2video"@.len() == 10);
    assert("hevc"@[1] == 'e' && "h265"@[1] == '2' && "h264"@[1] == '2' && "h265"@[3] == '5' && "h264"@[3] == '4');
}

/// High dynamic range counts for more than ten bits, and those for more than eight.
pub proof fn law_dynamic_range_counts(pix_fmt: Option<Seq<char>>, transfer: Option<Seq<char>>)
    ensures
        hdr_value(pix_fmt, Some("smpte2084"@)) == 2,
        hdr_value(pix_fmt, Some("arib-std-b67"@)) == 2,
        hdr_value(pix_fmt, transfer) == 2 ==> transfer == Some("smpte2084"@) || transfer == Some("arib-std-b67"@),
        hdr_value(Some("yuv420p10le"@), Some("bt709"@)) == 1,
        hdr_value(Some("yuv420p"@), Some("bt709"@)) == 0,
        hdr_value(pix_fmt, None) <= 1,
        hdr_value(pix_fmt, None) == 1 <==> (pix_fmt matches Some(p) && exists|i: int|
            0 <= i && i + 1 < p.len() && #[trigger] p[i] == '1' && p[i + 1] == '0'),
{
    reveal_strlit("smpte2084");
    reveal_strlit("arib-std-b67");
    reveal_strlit("bt709");
    reveal_strlit("yuv420p");
    reveal_strlit("yuv420p10le");
    reveal_strlit("10");
    assert("bt709"@.len() == 5 && "smpte2084"@.len() == 9 && "arib-std-b67"@.len() == 12);
    if let Some(p) = pix_fmt {
        lemma_holds_ten(p);
    }
    lemma_holds_ten("yuv420p10le"@);
    lemma_holds_ten("yuv420p"@);
    let (a, b) = ("yuv420p10le"@, "yuv420p"@);
    assert(a[7] == '1' && a[8] == '0');
    assert forall|i: int| 0 <= i && i + 1 < b.len() implies !(#[trigger] b[i] == '1' && b[i + 1] == '0') by {
        assert(b[0] == 'y' && b[1] == 'u' && b[2] == 'v' && b[3] == '4' && b[4] == '2' && b[5] == '0' && b[6] == 'p');
    }
}

proof fn lemma_holds_ten(p: Seq<char>)
    ensures
        contains(p, "10"@) <==> exists|i: int| 0 <= i && i + 1 < p.len() && #[trigger] p[i] == '1' && p[i + 1] == '0',
{
    reveal_strlit("10");
    let t = "10"@;
    if contains(p, t) {
        let i = choose|i: int| occurs_at(p, t, i);
        assert(p.subrange(i, i + 2)[0] == p[i] && p.subrange(i, i + 2)[1] == p[i + 1]);
    }
    if exists|i: int| 0 <= i && i + 1 < p.len() && #[trigger] p[i] == '1' && p[i + 1] == '0' {
        let i = choose|i: int| 0 <= i && i + 1 < p.len() && #[trigger] p[i] == '1' && p[i + 1] == '0';
        assert(p.subrange(i, i + 2) =~= t);
        assert(occurs_at(p, t, i));
    }
}

/// Frame rates count by how many of 24 and 48 frames per second are reached.
pub proof fn law_frame_rates_count_in_steps(f: Single)
    requires
        f.finite(),
    ensures
        fps_value(Some(f)) == counted(f.units() >= 24 * pow2(149)) + counted(f.units() >= 48 * pow2(149)),
        fps_value(None) == 0,
{
    let (low, high) = (Single { bits: TWENTY_FOUR }, Single { bits: FORTY_EIGHT });
    lemma_pow2_adds(19, 130);
    lemma_pow2_adds(18, 131);
    lemma2_to64();
    assert(TWENTY_FOUR as nat / 0x80_0000 == 131 && TWENTY_FOUR as nat % 0x80_0000 == 0x40_0000);
    assert(FORTY_EIGHT as nat / 0x80_0000 == 132 && FORTY_EIGHT as nat % 0x80_0000 == 0x40_0000);
    assert(low.units() == 0xc0_0000 * pow2(130));
    assert(high.units() == 0xc0_0000 * pow2(131));
    assert(0xc0_0000 * pow2(130) == 24 * pow2(149)) by (nonlinear_arith)
        requires
            pow2(149) == 0x8_0000 * pow2(130),
    ;
    assert(0xc0_0000 * pow2(131) == 48 * pow2(149)) by (nonlinear_arith)
        requires
            pow2(149) == 0x4_0000 * pow2(131),
    ;
    law_bits_go_up_with_numbers(low, f);
    law_bits_go_up_with_numbers(high, f);
}

/// The bonus of a URL counts in how many of an hour, six hours and a day it worked.
pub proof fn law_bonus_counts_in_steps(age: u64)
    ensures
        bonus(Some(age)) == counted(age < 60 * 60) + counted(age < 6 * 60 * 60) + counted(age < 24 * 60 * 60),
        bonus(None) == 0,
{
}

/// The bit rate of sound counts by how many of 64, 128, 192 and 320 kilobits it reaches.
pub proof fn law_sound_counts_in_steps(k: u32, hz: u32, n: u8)
    ensures
        audio_kbps_value(Some(k)) == counted(k >= 64) + counted(k >= 128) + counted(k >= 192) + counted(k >= 320),
        audio_kbps_value(None) == 0,
        audio_sample_rate_value(Some(48000)) > audio_sample_rate_value(Some(44100)),
        audio_sample_rate_value(Some(44100)) > audio_sample_rate_value(Some(32000)),
        audio_sample_rate_value(Some(32000)) > audio_sample_rate_value(None),
        audio_sample_rate_value(Some(hz)) > 0 ==> hz == 48000 || hz == 44100 || hz == 32000,
        audio_channels_value(Some(2)) > audio_channels_value(Some(1)),
        audio_channels_value(Some(1)) > audio_channels_value(None),
        audio_channels_value(Some(n)) > 0 ==> n == 1 || n == 2,
{
}

/// A stream that was never tried stands in the middle; one that always worked at the top, and one
/// that never did at the bottom.
pub proof fn law_success_runs_from_never_to_always(outcomes: Seq<bool>)
    requires
        outcomes.len() < 0x100_0000,
    ensures
        outcomes.len() == 0 ==> success_value(outcomes) == 5,
        outcomes.len() > 0 && (forall|i: int| 0 <= i < outcomes.len() ==> outcomes[i]) ==> success_value(outcomes) == 10,
        outcomes.len() > 0 && (forall|i: int| 0 <= i < outcomes.len() ==> !outcomes[i]) ==> success_value(outcomes) == 0,
{
    let (good, all, w) = weights(outcomes);
    let ten = Single { bits: TEN };
    lemma_weights_bounded(outcomes);
    lemma_weights_even(outcomes);
    lemma_ten(ten);
    if outcomes.len() > 0 {
        law_equals_divide_to_one(all);
        law_one_times_a_number(ten);
        law_nothing_by_a_number(all);
        law_nothing_times_a_number(ten);
    }
}

/// What weights all-or-nothing histories have.
proof fn lemma_weights_even(outcomes: Seq<bool>)
    ensures
        (forall|i: int| 0 <= i < outcomes.len() ==> outcomes[i]) ==> weights(outcomes).0 == weights(outcomes).1,
        (forall|i: int| 0 <= i < outcomes.len() ==> !outcomes[i]) ==> weights(outcomes).0.bits == 0,
    decreases outcomes.len(),
{
    if outcomes.len() > 0 {
        let t = outcomes.drop_last();
        lemma_weights_even(t);
        if forall|i: int| 0 <= i < outcomes.len() ==> outcomes[i] {
            assert(forall|i: int| 0 <= i < t.len() ==> t[i] == outcomes[i]);
        }
        if forall|i: int| 0 <= i < outcomes.len() ==> !outcomes[i] {
            assert(forall|i: int| 0 <= i < t.len() ==> t[i] == outcomes[i]);
        }
    }
}

/// All weights together are no more than there are attempts, and no less than the first.
proof fn lemma_weights_bounded(outcomes: Seq<bool>)
    requires
        outcomes.len() < 0x100_0000,
    ensures
        weights(outcomes).1.bits <= single(outcomes.len(), 1).bits < INFINITE,
        weights(outcomes).2.bits <= ONE,
        outcomes.len() > 0 ==> weights(outcomes).1.bits >= ONE,
    decreases outcomes.len(),
{
    let n = outcomes.len();
    law_small_numbers_are_exact(n);
    if n == 0 {
        lemma_place_nothing(0, 1, SINGLE as nat);
        assert(single(0, 1).bits == 0);
    } else {
        let t = outcomes.drop_last();
        let (good, all, w) = weights(t);
        lemma_weights_bounded(t);
        law_small_numbers_are_exact(t.len());
        law_small_numbers_are_exact(1);
        let one = Single { bits: ONE };
        lemma_product_at_most(w, Single { bits: NINE_TENTHS });
        lemma_sum_rises(all, single(t.len(), 1), w);
        lemma_sum_commutes(single(t.len(), 1), w);
        lemma_sum_commutes(single(t.len(), 1), one);
        lemma_sum_rises(w, one, single(t.len(), 1));
        law_small_sums_are_exact(t.len(), 1);
        lemma_sum_of_parts(all, w);
        if t.len() == 0 {
            lemma_sum_commutes(all, w);
            lemma_sum_of_parts(w, all);
        }
    }
}

/// An attempt that worked in the place of one that did not never makes a stream look worse.
pub proof fn law_success_counts_for_a_stream(outcomes: Seq<bool>, i: int)
    requires
        0 <= i < outcomes.len(),
        outcomes.len() < 0x100_0000,
    ensures
        success_value(outcomes) <= success_value(outcomes.update(i, true)),
{
    let better = outcomes.update(i, true);
    let (good, all, w) = weights(outcomes);
    let (more, same, v) = weights(better);
    let ten = Single { bits: TEN };
    lemma_weights_rise(outcomes, i);
    lemma_weights(outcomes);
    lemma_weights(better);
    lemma_weights_bounded(outcomes);
    lemma_quotient_rises(good, more, all);
    lemma_quotient_at_most_one(good, all);
    lemma_quotient_at_most_one(more, all);
    lemma_product_rises(quotient(good, all), quotient(more, all), ten);
    lemma_product_at_most(quotient(more, all), ten);
    lemma_rounded_rises(product(quotient(good, all), ten), product(quotient(more, all), ten));
    law_success_is_of_ten(outcomes);
    law_success_is_of_ten(better);
}

proof fn lemma_weights_rise(outcomes: Seq<bool>, i: int)
    requires
        0 <= i < outcomes.len(),
    ensures
        weights(outcomes).0.bits <= weights(outcomes.update(i, true)).0.bits <= INFINITE,
        weights(outcomes).1 == weights(outcomes.update(i, true)).1,
        weights(outcomes).2 == weights(outcomes.update(i, true)).2,
    decreases outcomes.len(),
{
    let better = outcomes.update(i, true);
    let t = outcomes.drop_last();
    let (good, all, w) = weights(t);
    lemma_weights(t);
    lemma_weights(better);
    if i < outcomes.len() - 1 {
        lemma_weights_rise(t, i);
        assert(better.drop_last() =~= t.update(i, true));
        assert(better.last() == outcomes.last());
        lemma_sum_rises(good, weights(t.update(i, true)).0, w);
    } else {
        assert(better.drop_last() =~= t);
        lemma_sum_of_parts(good, w);
    }
}

/// A play id of letters and digits, at most 32, stays as it is; of any other the letters and digits
/// are kept, at most 32.
pub proof fn law_play_ids_are_letters_and_digits(s: Seq<char>)
    ensures
        clean_pid(s).len() <= 32,
        forall|i: int| 0 <= i < clean_pid(s).len() ==> ascii_alphanumeric(#[trigger] clean_pid(s)[i]),
        s.len() <= 32 && (forall|i: int| 0 <= i < s.len() ==> ascii_alphanumeric(#[trigger] s[i])) ==> clean_pid(s) == s,
{
    lemma_kept_alphanumerics(s);
}

proof fn lemma_kept_alphanumerics(s: Seq<char>)
    ensures
        forall|i: int| 0 <= i < ascii_alphanumerics(s).len() ==> ascii_alphanumeric(#[trigger] ascii_alphanumerics(s)[i]),
        (forall|i: int| 0 <= i < s.len() ==> ascii_alphanumeric(#[trigger] s[i])) ==> ascii_alphanumerics(s) == s,
    decreases s.len(),
{
    if s.len() > 0 {
        let t = s.drop_last();
        lemma_kept_alphanumerics(t);
        assert forall|i: int| 0 <= i < t.len() implies #[trigger] t[i] == s[i] by {}
        assert(s[s.len() - 1] == s.last());
        assert(t.push(s.last()) =~= s);
        let (r, u) = (ascii_alphanumerics(s), ascii_alphanumerics(t));
        assert forall|i: int| 0 <= i < r.len() implies ascii_alphanumeric(#[trigger] r[i]) by {
            if i < u.len() {
                assert(r[i] == u[i]);
            }
        }
    }
}

/// Each attempt weighs at most as much as the one before it in the log. The first weighs one, the
/// second nine tenths: of two, one that worked counts for more in the first place than in the second.
pub proof fn law_attempts_weigh_less_and_less(outcomes: Seq<bool>, x: bool)
    ensures
        weights(outcomes.push(x)).2.bits <= weights(outcomes).2.bits,
        weights(Seq::<bool>::empty().push(x)).2.bits == NINE_TENTHS,
        weights(seq![true, false]).0.bits == ONE,
        weights(seq![false, true]).0.bits == NINE_TENTHS,
        NINE_TENTHS < ONE,
{
    let (nine, one) = (Single { bits: NINE_TENTHS }, Single { bits: ONE });
    lemma_weight_at_most_one(outcomes);
    assert(outcomes.push(x).drop_last() =~= outcomes);
    let w = weights(outcomes).2;
    lemma_product_rises(nine, one, w);
    law_one_times_a_number(w);
    assert(w.units() * nine.units() == nine.units() * w.units()) by (nonlinear_arith);
    law_one_times_a_number(nine);
    let e = Seq::<bool>::empty();
    assert(e.push(x).drop_last() =~= e);
    let (tf, ft) = (seq![true, false], seq![false, true]);
    assert(tf.drop_last() =~= e.push(true));
    assert(ft.drop_last() =~= e.push(false));
    assert(e.push(true).drop_last() =~= e && e.push(false).drop_last() =~= e);
    lemma_sum_with_nothing(one);
    lemma_sum_with_nothing(nine);
    reveal_with_fuel(weights, 4);
}

proof fn lemma_weight_at_most_one(outcomes: Seq<bool>)
    ensures
        weights(outcomes).2.bits <= ONE,
    decreases outcomes.len(),
{
    if outcomes.len() > 0 {
        let (nine, one) = (Single { bits: NINE_TENTHS }, Single { bits: ONE });
        let w = weights(outcomes.drop_last()).2;
        lemma_weight_at_most_one(outcomes.drop_last());
        lemma_product_rises(nine, one, w);
        law_one_times_a_number(w);
        assert(w.units() * nine.units() == nine.units() * w.units()) by (nonlinear_arith);
    }
}

/// An attempt counts for the stream that its URL names, on its host, and for no other; it worked where
/// it played.
pub proof fn law_attempts_count_for_their_stream(s: Seq<AttemptView>, a: AttemptView, stream_id: u64, host: Seq<char>)
    ensures
        a.host != host ==> attempt_outcomes(s.push(a), stream_id, host) == attempt_outcomes(s, stream_id, host),
        source_stream_id(a.url) != Some(stream_id) ==> attempt_outcomes(s.push(a), stream_id, host) == attempt_outcomes(
            s,
            stream_id,
            host,
        ),
        a.host == host && source_stream_id(a.url) == Some(stream_id) && a.outcome is Played ==> attempt_outcomes(
            s.push(a),
            stream_id,
            host,
        ) == attempt_outcomes(s, stream_id, host).push(true),
        a.host == host && source_stream_id(a.url) == Some(stream_id) && (a.outcome is Timeout || a.outcome is Failed)
            ==> attempt_outcomes(s.push(a), stream_id, host) == attempt_outcomes(s, stream_id, host).push(false),
{
    assert(s.push(a).drop_last() =~= s);
}

/// The outcomes of a log are those of its plays, one after the other.
pub proof fn law_plays_count_in_their_order(log: Seq<EventView>, e: EventView, stream_id: u64, host: Seq<char>)
    ensures
        logged_outcomes(log.push(e), stream_id, host) == logged_outcomes(log, stream_id, host) + attempt_outcomes(
            e.attempts,
            stream_id,
            host,
        ),
        logged_outcomes(Seq::empty(), stream_id, host).len() == 0,
{
    assert(log.push(e).drop_last() =~= log);
}

} // verus!
