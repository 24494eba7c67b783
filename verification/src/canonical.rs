//! Channels from streams: one key and one display name for the many spellings of a
//! channel's name.
use vstd::prelude::*;
use vstd::slice::slice_subrange;
use vstd::utf8::{decode_utf8, valid_utf8};
use crate::config::ProviderBoost;
use crate::default_order::Curation;
use crate::json::Json;
use crate::order::{Ranked, codes, is_ranked, law_ranked, law_ranked_is_stable, lemma_ranked_by_map};
use crate::order::{lemma_ranked_contains, lemma_ranked_no_duplicates, lex_lt, of_rank, own_rank, ranked_by, sort_ranked, text_before};
use crate::outside::{alphabetic, decomposed, from_utf8, is_alphabetic, is_match, lowercase, nfd, pattern_matches};
use crate::outside::{pattern_replaced, pattern_replaced_all, replace_all, replace_first, to_lowercase};
use crate::radio::RadioFormat;
use crate::table::TextMap;
use crate::text::{ascii_alphanumerics, chars_of, contains, digit, keep_ascii_alphanumerics, lemma_small_alphanumerics};
use crate::text::{opt_text, owned, push_text, replace_char, replaced, same, str_has, string_of, trim, trim_str};
use crate::xtream::{ChannelKind, LiveStream};

verus! {

// --- Patterns ------------------------------------------------------------------------

pub const SUPERSCRIPTS: &'static str =
    "[\\u{1D00}-\\u{1DBF}\\u{02B0}-\\u{02FF}\\u{02C0}-\\u{02FF}\\u{00B2}\\u{00B3}\\u{00B9}\\u{2070}\\u{2071}\\u{2074}-\\u{209F}\\u{207A}-\\u{207F}]+";

pub const PREFIX: &'static str = "^[\\p{Alphabetic}0-9]+\\s*[|:]\\s*";

pub const QUALITY: &'static str = "(?i)\\b(HD|FHD|UHD|4K|RAW|SD|FULL\\s*HD|\\d{3,4}P)\\b";

pub const TRAILING_TV: &'static str = "(?i)\\s+TV(\\s+1)?\\s*$";

pub const WHITESPACE: &'static str = "\\s+";

pub const LEADING_HASH: &'static str = "^#+\\s*";

pub const TRAILING_HASH: &'static str = "\\s*#+$";

pub const SEPARATOR: &'static str = "^#+\\s*.*\\s*#+\\s*$";

pub const ACCENT: &'static str = "[\\p{M}]";

/// What a display name does not show: all but letters, marks, numbers, spaces,
/// punctuation and mathematical symbols.
pub const HIDDEN: &'static str = "[^\\p{L}\\p{M}\\p{N}\\p{Zs}\\p{P}\\p{Sm}]";

pub const HAS_ACCENT: &'static str = "[\\u{00C0}-\\u{024F}]";

pub const RAW: &'static str = "(?i)\\bRAW\\b";

pub const UHD: &'static str = "(?i)\\b(4K|UHD)\\b";

pub const FHD: &'static str = "(?i)\\b(FHD|FULL\\s*HD)\\b";

pub const HD: &'static str = "(?i)\\bHD\\b";

pub const SD: &'static str = "(?i)\\bSD\\b";

pub const VIP: &'static str = "(?i)VIP";

/// RAW, HD and VIP in raised letters.
pub const RAISED_RAW: &'static str = "\u{1D3F}\u{1D2C}\u{1D42}";

pub const RAISED_HD: &'static str = "\u{1D34}\u{1D30}";

pub const RAISED_VIP: &'static str = "\u{2C7D}\u{1D35}\u{1D3E}";

// --- Mended text -----------------------------------------------------------------------

/// The length of the run of characters up to `ff` that starts `s`.
pub open spec fn latin1_run(s: Seq<char>) -> nat
    decreases s.len(),
{
    if s.len() == 0 || s[0] as u32 > 0xff {
        0
    } else {
        1 + latin1_run(s.drop_first())
    }
}

/// The bytes whose Latin-1 reading is `run`.
pub open spec fn latin1_bytes(run: Seq<char>) -> Seq<u8> {
    Seq::new(run.len(), |i: int| run[i] as u8)
}

/// A letter beyond ASCII occurs.
pub open spec fn has_foreign_letter(s: Seq<char>) -> bool {
    exists|i: int| 0 <= i < s.len() && alphabetic(#[trigger] s[i]) && s[i] as u32 > 0x7f
}

/// A run of Latin-1 characters, read as UTF-8 where that is another text with a letter
/// beyond ASCII.
pub open spec fn repaired(run: Seq<char>) -> Seq<char> {
    let bytes = latin1_bytes(run);
    let text = decode_utf8(bytes);
    if valid_utf8(bytes) && text != run && has_foreign_letter(text) {
        text
    } else {
        run
    }
}

/// A text with each of its maximal runs of Latin-1 characters repaired.
pub open spec fn mended(s: Seq<char>) -> Seq<char>
    decreases s.len(),
{
    let n = latin1_run(s) as int;
    if s.len() == 0 {
        s
    } else if n <= 0 || n > s.len() {
        seq![s[0]] + mended(s.skip(1))
    } else {
        repaired(s.take(n)) + mended(s.skip(n))
    }
}

proof fn lemma_latin1_run(s: Seq<char>)
    ensures
        latin1_run(s) <= s.len(),
        forall|i: int| 0 <= i < latin1_run(s) ==> (#[trigger] s[i]) as u32 <= 0xff,
    decreases s.len(),
{
    if s.len() > 0 && s[0] as u32 <= 0xff {
        lemma_latin1_run(s.drop_first());
        assert forall|i: int| 0 <= i < latin1_run(s) implies (#[trigger] s[i]) as u32 <= 0xff by {
            if i > 0 {
                assert(s[i] == s.drop_first()[i - 1]);
            }
        }
    }
}

fn foreign_letter(s: &[char]) -> (r: bool)
    ensures
        r == has_foreign_letter(s@),
{
    let mut i: usize = 0;
    while i < s.len()
        invariant
            i <= s@.len(),
            forall|j: int| 0 <= j < i ==> !(alphabetic(#[trigger] s@[j]) && s@[j] as u32 > 0x7f),
        decreases s@.len() - i,
    {
        if is_alphabetic(s[i]) && s[i] as u32 > 0x7f {
            return true;
        }
        i = i + 1;
    }
    false
}

/// Reads a run of Latin-1 characters as UTF-8, where that is what it was.
pub fn maybe_repair_latin1(run: &[char]) -> (r: Vec<char>)
    requires
        forall|i: int| 0 <= i < run@.len() ==> (#[trigger] run@[i]) as u32 <= 0xff,
    ensures
        r@ == repaired(run@),
{
    let mut bytes: Vec<u8> = Vec::new();
    let mut i: usize = 0;
    while i < run.len()
        invariant
            i <= run@.len(),
            bytes@ == latin1_bytes(run@.take(i as int)),
            forall|j: int| 0 <= j < run@.len() ==> (#[trigger] run@[j]) as u32 <= 0xff,
        decreases run@.len() - i,
    {
        bytes.push(run[i] as u8);
        proof {
            assert(bytes@ =~= latin1_bytes(run@.take(i + 1)));
        }
        i = i + 1;
    }
    proof {
        assert(run@.take(i as int) =~= run@);
    }
    if let Some(text) = from_utf8(bytes) {
        let chars = chars_of(&text);
        if !same(&chars, run) && foreign_letter(&chars) {
            return chars;
        }
    }
    vstd::slice::slice_to_vec(run)
}

/// Mends text that was encoded twice, run by run.
pub fn fix_mojibake(s: &str) -> (r: String)
    ensures
        r@ == mended(s@),
{
    let v = chars_of(s);
    let mut out = String::new();
    let mut i: usize = 0;
    proof {
        assert(v@.skip(0) =~= v@);
        assert(out@ + mended(v@) =~= mended(v@));
    }
    while i < v.len()
        invariant
            i <= v@.len(),
            out@ + mended(v@.skip(i as int)) == mended(v@),
        decreases v@.len() - i,
    {
        let ghost rest = v@.skip(i as int);
        let ghost was = out@;
        let mut j: usize = i;
        while j < v.len() && v[j] as u32 <= 0xff
            invariant
                i <= j <= v@.len(),
                rest == v@.skip(i as int),
                latin1_run(rest) == (j - i) + latin1_run(v@.skip(j as int)),
            decreases v@.len() - j,
        {
            proof {
                assert(v@.skip(j as int).drop_first() =~= v@.skip(j + 1));
            }
            j = j + 1;
        }
        proof {
            lemma_latin1_run(rest);
            assert(latin1_run(rest) == j - i);
        }
        if j > i {
            let run = slice_subrange(&v, i, j);
            proof {
                assert(run@ =~= rest.take(j - i));
                assert(rest.skip(j - i) =~= v@.skip(j as int));
            }
            let fixed = string_of(&maybe_repair_latin1(run));
            push_text(&mut out, &fixed);
            proof {
                assert(out@ + mended(v@.skip(j as int)) =~= was + mended(rest));
            }
            i = j;
        } else {
            out.push(v[i]);
            proof {
                assert(rest.skip(1) =~= v@.skip(i + 1));
                assert(out@ + mended(v@.skip(i + 1)) =~= was + mended(rest));
            }
            i = i + 1;
        }
    }
    proof {
        assert(out@ + mended(v@.skip(i as int)) =~= out@);
    }
    out
}

// --- Keys and display names ---------------------------------------------------------------

/// A text without its accents: its marks, once it is decomposed.
pub open spec fn unaccented(s: Seq<char>) -> Seq<char> {
    pattern_replaced_all(ACCENT@, decomposed(s), ""@)
}

pub fn strip_accents(s: &str) -> (r: String)
    ensures
        r@ == unaccented(s@),
{
    replace_all(ACCENT, &nfd(s), "")
}

/// Each run of white space as one space.
pub open spec fn single_spaced(s: Seq<char>) -> Seq<char> {
    pattern_replaced_all(WHITESPACE@, s, " "@)
}

/// A name mended, without raised letters and without the hash signs around it.
pub open spec fn cleaned(s: Seq<char>) -> Seq<char> {
    let s = pattern_replaced_all(SUPERSCRIPTS@, mended(s), ""@);
    let s = pattern_replaced(LEADING_HASH@, s, ""@);
    let s = pattern_replaced(TRAILING_HASH@, s, ""@);
    trim(single_spaced(s))
}

pub fn clean(s: &str) -> (r: String)
    ensures
        r@ == cleaned(s@),
{
    let s = fix_mojibake(s);
    let s = replace_all(SUPERSCRIPTS, &s, "");
    let s = replace_first(LEADING_HASH, &s, "");
    let s = replace_first(TRAILING_HASH, &s, "");
    let s = replace_all(WHITESPACE, &s, " ");
    trim_str(&s)
}

/// A name without the provider's prefix.
pub open spec fn unprefixed(s: Seq<char>) -> Seq<char> {
    trim(pattern_replaced(PREFIX@, s, ""@))
}

pub fn strip_prefix(s: &str) -> (r: String)
    ensures
        r@ == unprefixed(s@),
{
    trim_str(&replace_first(PREFIX, s, ""))
}

/// A name without its quality marks.
pub open spec fn unmarked(s: Seq<char>) -> Seq<char> {
    trim(single_spaced(pattern_replaced_all(QUALITY@, s, ""@)))
}

pub fn strip_quality(s: &str) -> (r: String)
    ensures
        r@ == unmarked(s@),
{
    let s = replace_all(QUALITY, s, "");
    trim_str(&replace_all(WHITESPACE, &s, " "))
}

/// What was cut down, unless fewer than three characters are left of it.
pub open spec fn unless_short(s: Seq<char>, cut: Seq<char>) -> Seq<char> {
    if trim(cut).len() < 3 {
        s
    } else {
        trim(cut)
    }
}

/// Chooses between a name and what was cut down of it.
pub fn keep_unless_short(s: &str, cut: &str) -> (r: String)
    ensures
        r@ == unless_short(s@, cut@),
{
    let t = trim_str(cut);
    if chars_of(&t).len() < 3 {
        owned(s)
    } else {
        t
    }
}

pub fn strip_trailing_tv(s: &str) -> (r: String)
    ensures
        r@ == unless_short(s@, pattern_replaced(TRAILING_TV@, s@, ""@)),
{
    let cut = replace_first(TRAILING_TV, s, "");
    keep_unless_short(s, &cut)
}

/// The key of a name before aliases: letters and digits of what is left of it.
pub open spec fn base_key(name: Seq<char>) -> Seq<char> {
    let n = unmarked(unprefixed(cleaned(name)));
    let n = unless_short(n, pattern_replaced(TRAILING_TV@, n, ""@));
    let n = replaced(unaccented(n), '&', " e "@);
    let n = replaced(single_spaced(n), '+', " plus "@);
    ascii_alphanumerics(lowercase(n))
}

/// Nothing but small letters and digits.
pub open spec fn plain_key(k: Seq<char>) -> bool {
    forall|i: int| 0 <= i < k.len() ==> digit(#[trigger] k[i]) || ('a' <= k[i] && k[i] <= 'z')
}

/// The key holds nothing but small letters and digits.
pub fn canonical_key_base(name: &str) -> (r: String)
    ensures
        r@ == base_key(name@),
        plain_key(r@),
{
    let n = clean(name);
    let n = strip_prefix(&n);
    let n = strip_quality(&n);
    let n = strip_trailing_tv(&n);
    let n = strip_accents(&n);
    let n = replace_char(&n, '&', " e ");
    let n = replace_all(WHITESPACE, &n, " ");
    let n = replace_char(&n, '+', " plus ");
    let n = to_lowercase(&n);
    proof {
        lemma_small_alphanumerics(n@);
    }
    keep_ascii_alphanumerics(&n)
}

/// What a key is known as.
pub open spec fn alias_of(key: Seq<char>, aliases: Map<Seq<char>, String>) -> Seq<char> {
    if aliases.contains_key(key) {
        aliases[key]@
    } else {
        key
    }
}

/// The key of a name.
pub open spec fn aliased_key(name: Seq<char>, aliases: Map<Seq<char>, String>) -> Seq<char> {
    alias_of(base_key(name), aliases)
}

/// What a key is known as.
pub fn resolve_alias(key: String, aliases: &TextMap<String>) -> (r: String)
    ensures
        r@ == alias_of(key@, aliases@),
{
    match aliases.get(&key) {
        Some(a) => a.clone(),
        None => key,
    }
}

/// The key holds nothing but small letters and digits, unless it is an alias.
pub fn canonical_key_with_aliases(name: &str, aliases: &TextMap<String>) -> (r: String)
    ensures
        r@ == aliased_key(name@, aliases@),
        plain_key(base_key(name@)),
        !aliases@.contains_key(base_key(name@)) ==> plain_key(r@),
{
    resolve_alias(canonical_key_base(name), aliases)
}

pub fn canonical_key(name: &str, curation: &Curation) -> (r: String)
    ensures
        r@ == aliased_key(name@, curation.aliases@),
        !curation.aliases@.contains_key(base_key(name@)) ==> plain_key(r@),
{
    canonical_key_with_aliases(name, &curation.aliases)
}

/// The name to show.
pub open spec fn shown_name(name: Seq<char>) -> Seq<char> {
    let n = unmarked(unprefixed(cleaned(name)));
    trim(single_spaced(pattern_replaced_all(HIDDEN@, n, ""@)))
}

pub fn display_name(name: &str) -> (r: String)
    ensures
        r@ == shown_name(name@),
{
    let n = clean(name);
    let n = strip_prefix(&n);
    let n = strip_quality(&n);
    let n = replace_all(HIDDEN, &n, "");
    trim_str(&replace_all(WHITESPACE, &n, " "))
}

/// A heading in a provider's list, not a stream.
pub open spec fn separator(name: Seq<char>) -> bool {
    pattern_matches(SEPARATOR@, trim(name))
}

pub fn is_separator(name: &str) -> (r: bool)
    ensures
        r == separator(name@),
{
    is_match(SEPARATOR, &trim_str(name))
}

/// The better of two display names: one with accents before one without, else the longer
/// one, else the first.
pub open spec fn better_name(a: Seq<char>, b: Seq<char>, a_accented: bool, b_accented: bool) -> Seq<char> {
    if a_accented != b_accented {
        if a_accented {
            a
        } else {
            b
        }
    } else if b.len() > a.len() {
        b
    } else {
        a
    }
}

/// Chooses between two display names, knowing which of them has accents.
pub fn pick_name(a: &str, b: &str, a_accented: bool, b_accented: bool) -> (r: String)
    ensures
        r@ == better_name(a@, b@, a_accented, b_accented),
{
    if a_accented && !b_accented {
        return owned(a);
    }
    if b_accented && !a_accented {
        return owned(b);
    }
    if chars_of(b).len() > chars_of(a).len() {
        owned(b)
    } else {
        owned(a)
    }
}

/// The better of two display names.
pub open spec fn preferred(a: Seq<char>, b: Seq<char>) -> Seq<char> {
    better_name(a, b, pattern_matches(HAS_ACCENT@, a), pattern_matches(HAS_ACCENT@, b))
}

pub fn prefer_display(a: &str, b: &str) -> (r: String)
    ensures
        r@ == preferred(a@, b@),
{
    pick_name(a, b, is_match(HAS_ACCENT, a), is_match(HAS_ACCENT, b))
}

// --- Scores -----------------------------------------------------------------------------

/// What a stream's name says of its quality.
#[derive(Debug, Clone, Copy, PartialEq, Eq, Structural)]
pub struct QualityMarks {
    pub raw: bool,
    pub uhd: bool,
    pub fhd: bool,
    pub hd: bool,
    pub sd: bool,
    pub vip: bool,
}

pub open spec fn marks(name: Seq<char>) -> QualityMarks {
    QualityMarks {
        raw: pattern_matches(RAW@, name) || contains(name, RAISED_RAW@),
        uhd: pattern_matches(UHD@, name),
        fhd: pattern_matches(FHD@, name),
        hd: pattern_matches(HD@, name) || contains(name, RAISED_HD@),
        sd: pattern_matches(SD@, name),
        vip: pattern_matches(VIP@, name) || contains(name, RAISED_VIP@),
    }
}

pub fn read_marks(name: &str) -> (r: QualityMarks)
    ensures
        r == marks(name@),
{
    QualityMarks {
        raw: is_match(RAW, name) || str_has(name, RAISED_RAW),
        uhd: is_match(UHD, name),
        fhd: is_match(FHD, name),
        hd: is_match(HD, name) || str_has(name, RAISED_HD),
        sd: is_match(SD, name),
        vip: is_match(VIP, name) || str_has(name, RAISED_VIP),
    }
}

/// The score of the marks alone.
pub open spec fn mark_score(m: QualityMarks) -> int {
    (if m.raw { 40int } else { 0 }) + (if m.uhd { 30int } else { 0 }) + (if m.fhd { 20int } else { 0 }) + (if m.hd {
        15int
    } else {
        0
    }) - (if m.sd { 10int } else { 0 }) + (if m.vip { 10int } else { 0 })
}

pub fn score_marks(m: QualityMarks) -> (r: i32)
    ensures
        r == mark_score(m),
{
    let mut s: i32 = 0;
    if m.raw {
        s = s + 40;
    }
    if m.uhd {
        s = s + 30;
    }
    if m.fhd {
        s = s + 20;
    }
    if m.hd {
        s = s + 15;
    }
    if m.sd {
        s = s - 10;
    }
    if m.vip {
        s = s + 10;
    }
    s
}

/// `s` with the scores of those boosts added whose pattern matches the name, in 32-bit
/// arithmetic.
pub open spec fn boosted(s: i32, boosts: Seq<ProviderBoost>, name: Seq<char>) -> i32
    decreases boosts.len(),
{
    if boosts.len() == 0 {
        s
    } else {
        let b = boosted(s, boosts.drop_last(), name);
        if pattern_matches(boosts.last().pattern@, name) {
            b.wrapping_add(boosts.last().score)
        } else {
            b
        }
    }
}

/// The score of a stream by its name.
pub open spec fn name_score(name: Seq<char>, curation: Curation) -> i32 {
    boosted(mark_score(marks(name)) as i32, curation.provider_boosts@, name)
}

pub fn score_variant(name: &str, curation: &Curation) -> (r: i32)
    ensures
        r == name_score(name@, *curation),
{
    let mut s: i32 = score_marks(read_marks(name));
    let ghost first = s;
    let mut i: usize = 0;
    while i < curation.provider_boosts.len()
        invariant
            i <= curation.provider_boosts@.len(),
            s == boosted(first, curation.provider_boosts@.take(i as int), name@),
        decreases curation.provider_boosts@.len() - i,
    {
        let b = &curation.provider_boosts[i];
        proof {
            assert(curation.provider_boosts@.take(i + 1).drop_last() =~= curation.provider_boosts@.take(i as int));
        }
        if is_match(&b.pattern, name) {
            s = s.wrapping_add(b.score);
        }
        i = i + 1;
    }
    proof {
        assert(curation.provider_boosts@.take(i as int) =~= curation.provider_boosts@);
    }
    s
}

/// The best quality that the marks tell.
pub open spec fn tier(m: QualityMarks) -> Option<Seq<char>> {
    if m.raw {
        Some("RAW"@)
    } else if m.uhd {
        Some("4K"@)
    } else if m.fhd {
        Some("FHD"@)
    } else if m.hd {
        Some("HD"@)
    } else if m.sd {
        Some("SD"@)
    } else {
        None
    }
}

/// The best quality that the marks tell.
pub fn tier_of_marks(m: QualityMarks) -> (r: Option<&'static str>)
    ensures
        match r {
            Some(s) => tier(m) == Some(s@),
            None => tier(m) is None,
        },
{
    if m.raw {
        Some("RAW")
    } else if m.uhd {
        Some("4K")
    } else if m.fhd {
        Some("FHD")
    } else if m.hd {
        Some("HD")
    } else if m.sd {
        Some("SD")
    } else {
        None
    }
}

pub fn quality_tier(name: &str) -> (r: Option<&'static str>)
    ensures
        match r {
            Some(s) => tier(marks(name@)) == Some(s@),
            None => tier(marks(name@)) is None,
        },
{
    tier_of_marks(read_marks(name))
}

// --- Channels -----------------------------------------------------------------------------

/// One stream of a channel.
#[derive(Debug)]
pub struct CanonicalSource {
    pub stream_id: u64,
    pub name: String,
    pub score: i32,
    pub logo: Option<String>,
    pub tv_archive: bool,
    pub tv_archive_duration: Option<u32>,
    /// The URL of a source that does not go by host and stream id.
    pub direct_source: Option<String>,
    /// The host that listed the stream; empty for radio.
    pub origin_host: String,
    /// How radio arrives; none for television.
    pub radio_format: Option<RadioFormat>,
}

/// The contents of a `CanonicalSource`.
pub struct SourceView {
    pub stream_id: u64,
    pub name: Seq<char>,
    pub score: i32,
    pub logo: Option<Seq<char>>,
    pub tv_archive: bool,
    pub tv_archive_duration: Option<u32>,
    pub direct_source: Option<Seq<char>>,
    pub origin_host: Seq<char>,
    pub radio_format: Option<RadioFormat>,
}

impl View for CanonicalSource {
    type V = SourceView;

    open spec fn view(&self) -> SourceView {
        SourceView {
            stream_id: self.stream_id,
            name: self.name@,
            score: self.score,
            logo: opt_text(self.logo),
            tv_archive: self.tv_archive,
            tv_archive_duration: self.tv_archive_duration,
            direct_source: opt_text(self.direct_source),
            origin_host: self.origin_host@,
            radio_format: self.radio_format,
        }
    }
}

/// The contents of each source.
pub open spec fn source_views(v: Seq<CanonicalSource>) -> Seq<SourceView> {
    v.map_values(|s: CanonicalSource| s@)
}

/// A channel and its streams.
#[derive(Debug)]
pub struct CanonicalChannel {
    pub key: String,
    pub name: String,
    pub kind: ChannelKind,
    pub sources: Vec<CanonicalSource>,
}

/// The contents of a `CanonicalChannel`.
pub struct ChannelView {
    pub key: Seq<char>,
    pub name: Seq<char>,
    pub kind: ChannelKind,
    pub sources: Seq<SourceView>,
}

impl View for CanonicalChannel {
    type V = ChannelView;

    open spec fn view(&self) -> ChannelView {
        ChannelView {
            key: self.key@,
            name: self.name@,
            kind: self.kind,
            sources: source_views(self.sources@),
        }
    }
}

/// The contents of each channel.
pub open spec fn channel_views(v: Seq<CanonicalChannel>) -> Seq<ChannelView> {
    v.map_values(|c: CanonicalChannel| c@)
}

/// Of the sources with an archive, `i` has the highest score, and is the last with it.
pub open spec fn best_archive(sources: Seq<CanonicalSource>, i: int) -> bool {
    &&& 0 <= i < sources.len()
    &&& sources[i].tv_archive
    &&& forall|j: int|
        0 <= j < sources.len() && (#[trigger] sources[j]).tv_archive ==> sources[j].score <= sources[i].score
    &&& forall|j: int|
        i < j < sources.len() && (#[trigger] sources[j]).tv_archive ==> sources[j].score < sources[i].score
}

/// Only one source of a channel is asked for recordings.
pub proof fn law_one_archive_is_best(sources: Seq<CanonicalSource>, i: int, j: int)
    requires
        best_archive(sources, i),
        best_archive(sources, j),
    ensures
        i == j,
        sources[i].tv_archive,
        forall|k: int| 0 <= k < sources.len() && (#[trigger] sources[k]).tv_archive ==> sources[k].score <= sources[i].score,
{
    assert(sources[i].tv_archive && sources[j].tv_archive);
}

impl CanonicalChannel {
    /// The source with an archive whose score is the highest, the last one of several.
    pub fn pick_archive_source(&self) -> (r: Option<&CanonicalSource>)
        ensures
            match r {
                Some(s) => exists|i: int| #[trigger] best_archive(self.sources@, i) && self.sources@[i] == *s,
                None => forall|i: int| 0 <= i < self.sources@.len() ==> !(#[trigger] self.sources@[i]).tv_archive,
            },
    {
        let mut best: Option<usize> = None;
        let mut i: usize = 0;
        while i < self.sources.len()
            invariant
                i <= self.sources@.len(),
                match best {
                    Some(b) => b < i && best_archive(self.sources@.take(i as int), b as int),
                    None => forall|j: int| 0 <= j < i ==> !(#[trigger] self.sources@[j]).tv_archive,
                },
            decreases self.sources@.len() - i,
        {
            let ghost was = self.sources@.take(i as int);
            let ghost now = self.sources@.take(i + 1);
            proof {
                assert forall|j: int| 0 <= j < i implies now[j] == was[j] by {}
            }
            if self.sources[i].tv_archive {
                let replace = match best {
                    Some(b) => self.sources[i].score >= self.sources[b].score,
                    None => true,
                };
                if replace {
                    best = Some(i);
                }
            }
            i = i + 1;
        }
        proof {
            assert(self.sources@.take(i as int) =~= self.sources@);
        }
        match best {
            Some(b) => Some(&self.sources[b]),
            None => None,
        }
    }
}

/// A text that is not empty.
pub open spec fn non_empty(s: Seq<char>) -> Option<Seq<char>> {
    if s.len() == 0 {
        None
    } else {
        Some(s)
    }
}

/// The source that a stream makes.
pub open spec fn source_of(st: LiveStream, curation: Curation) -> SourceView {
    let days = if st.archived() {
        st.archive_days()
    } else {
        None
    };
    SourceView {
        stream_id: st.stream_id,
        name: st.name@,
        score: name_score(st.name@, curation),
        logo: non_empty(st.stream_icon@),
        tv_archive: days is Some,
        tv_archive_duration: days,
        direct_source: match st.direct_source {
            Some(s) if trim(s@).len() > 0 => Some(s@),
            _ => None,
        },
        origin_host: st.origin_host@,
        radio_format: st.radio_format,
    }
}

fn make_source(st: &LiveStream, curation: &Curation) -> (r: CanonicalSource)
    ensures
        r@ == source_of(*st, *curation),
{
    let tv_archive_duration = if st.has_tv_archive() {
        st.tv_archive_days()
    } else {
        None
    };
    let logo = if st.stream_icon.as_str().is_empty() {
        None
    } else {
        Some(st.stream_icon.clone())
    };
    let direct_source = match &st.direct_source {
        Some(s) => if trim_str(s).as_str().is_empty() {
            None
        } else {
            Some(s.clone())
        },
        None => None,
    };
    CanonicalSource {
        stream_id: st.stream_id,
        name: st.name.clone(),
        score: score_variant(&st.name, curation),
        logo,
        tv_archive: tv_archive_duration.is_some(),
        tv_archive_duration,
        direct_source,
        origin_host: st.origin_host.clone(),
        radio_format: st.radio_format,
    }
}

/// The stream belongs to a channel: it has a name, an id and a key, and is no heading.
pub open spec fn belongs(st: LiveStream, curation: Curation) -> bool {
    st.name@.len() > 0 && st.stream_id != 0 && !separator(st.name@) && aliased_key(st.name@, curation.aliases@).len()
        > 0
}

/// The position of the channel with the key, or the number of channels.
pub open spec fn key_index(cs: Seq<ChannelView>, key: Seq<char>) -> int
    decreases cs.len(),
{
    if cs.len() == 0 {
        0
    } else if key_index(cs.drop_last(), key) < cs.len() - 1 || cs.last().key == key {
        key_index(cs.drop_last(), key)
    } else {
        cs.len() as int
    }
}

/// The channels `cs` and one more stream: a source of the channel with its key, which
/// takes the better of the two display names, or else a channel of its own.
pub open spec fn with_stream(cs: Seq<ChannelView>, st: LiveStream, curation: Curation) -> Seq<ChannelView> {
    if !belongs(st, curation) {
        cs
    } else {
        let key = aliased_key(st.name@, curation.aliases@);
        let shown = shown_name(st.name@);
        let source = source_of(st, curation);
        let i = key_index(cs, key);
        if i < cs.len() {
            cs.update(
                i,
                ChannelView { name: preferred(cs[i].name, shown), sources: cs[i].sources.push(source), ..cs[i] },
            )
        } else {
            cs.push(ChannelView { key, name: preferred(shown, shown), kind: st.kind, sources: seq![source] })
        }
    }
}

/// The streams by channel, in the order in which the channels first occur.
pub open spec fn grouped(streams: Seq<LiveStream>, curation: Curation) -> Seq<ChannelView>
    decreases streams.len(),
{
    if streams.len() == 0 {
        Seq::empty()
    } else {
        with_stream(grouped(streams.drop_last(), curation), streams.last(), curation)
    }
}

/// Sources go by score, the highest first.
pub open spec fn source_rank() -> spec_fn(SourceView) -> Seq<int> {
    |s: SourceView| seq![-(s.score as int)]
}

/// Channels go by name, in lower case.
pub open spec fn channel_rank() -> spec_fn(ChannelView) -> Seq<int> {
    |c: ChannelView| codes(lowercase(c.name))
}

/// A channel with its sources in order and under the name that is laid down for it.
pub open spec fn finished(c: ChannelView, overrides: Map<Seq<char>, String>) -> ChannelView {
    ChannelView {
        name: if overrides.contains_key(c.key) {
            overrides[c.key]@
        } else {
            c.name
        },
        sources: ranked_by(c.sources, source_rank()),
        ..c
    }
}

/// The channels of a list of streams: one for each key, its sources by score, and the
/// channels by name.
pub open spec fn channels(streams: Seq<LiveStream>, curation: Curation) -> Seq<ChannelView> {
    ranked_by(
        grouped(streams, curation).map_values(|c: ChannelView| finished(c, curation.display_overrides@)),
        channel_rank(),
    )
}

impl Ranked for CanonicalSource {
    open spec fn rank(&self) -> Seq<int> {
        seq![-(self.score as int)]
    }

    fn precedes(&self, other: &Self) -> (r: bool) {
        proof {
            reveal_with_fuel(lex_lt, 2);
        }
        self.score > other.score
    }
}

impl Ranked for CanonicalChannel {
    open spec fn rank(&self) -> Seq<int> {
        codes(lowercase(self.name@))
    }

    fn precedes(&self, other: &Self) -> (r: bool) {
        text_before(&chars_of(&to_lowercase(&self.name)), &chars_of(&to_lowercase(&other.name)))
    }
}

proof fn lemma_key_index(cs: Seq<ChannelView>, key: Seq<char>)
    ensures
        0 <= key_index(cs, key) <= cs.len(),
        key_index(cs, key) < cs.len() ==> cs[key_index(cs, key)].key == key,
        forall|i: int| 0 <= i < key_index(cs, key) ==> (#[trigger] cs[i]).key != key,
    decreases cs.len(),
{
    if cs.len() > 0 {
        lemma_key_index(cs.drop_last(), key);
        let k = key_index(cs.drop_last(), key);
        if k < cs.len() - 1 {
            assert(cs.drop_last()[k] == cs[k]);
        }
        assert forall|i: int| 0 <= i < key_index(cs, key) implies (#[trigger] cs[i]).key != key by {
            if i < cs.len() - 1 {
                assert(cs.drop_last()[i] == cs[i]);
            }
        }
    }
}

proof fn lemma_key_index_at(cs: Seq<ChannelView>, key: Seq<char>, i: int)
    requires
        0 <= i <= cs.len(),
        i < cs.len() ==> cs[i].key == key,
        forall|j: int| 0 <= j < i ==> (#[trigger] cs[j]).key != key,
    ensures
        key_index(cs, key) == i,
{
    lemma_key_index(cs, key);
    let k = key_index(cs, key);
    if k < i {
        assert(cs[k].key != key);
    }
    if i < k {
        assert(cs[i].key != key);
    }
}

fn find_channel(cs: &Vec<CanonicalChannel>, key: &String) -> (r: usize)
    ensures
        r == key_index(channel_views(cs@), key@),
        r <= cs@.len(),
{
    let ghost v = channel_views(cs@);
    let mut i: usize = 0;
    while i < cs.len()
        invariant
            i <= cs@.len(),
            v == channel_views(cs@),
            forall|j: int| 0 <= j < i ==> (#[trigger] v[j]).key != key@,
        decreases cs@.len() - i,
    {
        if cs[i].key == *key {
            proof {
                lemma_key_index_at(v, key@, i as int);
            }
            return i;
        }
        i = i + 1;
    }
    proof {
        lemma_key_index_at(v, key@, i as int);
    }
    i
}

fn add_stream(cs: &mut Vec<CanonicalChannel>, st: &LiveStream, curation: &Curation)
    ensures
        channel_views(final(cs)@) == with_stream(channel_views(old(cs)@), *st, *curation),
{
    if st.name.as_str().is_empty() || st.stream_id == 0 || is_separator(&st.name) {
        return;
    }
    let key = canonical_key(&st.name, curation);
    if key.as_str().is_empty() {
        return;
    }
    let shown = display_name(&st.name);
    let source = make_source(st, curation);
    let ghost was = channel_views(cs@);
    let i = find_channel(cs, &key);
    if i < cs.len() {
        let name = prefer_display(&cs[i].name, &shown);
        let ghost sources = cs@[i as int].sources@;
        cs[i].name = name;
        cs[i].sources.push(source);
        proof {
            assert(source_views(sources.push(source)) =~= source_views(sources).push(source@));
            assert(channel_views(cs@) =~= with_stream(was, *st, *curation));
        }
    } else {
        let name = prefer_display(&shown, &shown);
        let mut sources: Vec<CanonicalSource> = Vec::new();
        sources.push(source);
        proof {
            assert(source_views(sources@) =~= seq![source@]);
        }
        cs.push(CanonicalChannel { key, name, kind: st.kind, sources });
        proof {
            assert(channel_views(cs@) =~= with_stream(was, *st, *curation));
        }
    }
}

fn finish_channel(c: CanonicalChannel, overrides: &TextMap<String>) -> (r: CanonicalChannel)
    ensures
        r@ == finished(c@, overrides@),
{
    let ghost before = c.sources@;
    let name = match overrides.get(&c.key) {
        Some(n) => n.clone(),
        None => c.name,
    };
    let sources = sort_ranked(c.sources);
    proof {
        lemma_ranked_by_map(before, |s: CanonicalSource| s@, own_rank::<CanonicalSource>(), source_rank());
    }
    CanonicalChannel { key: c.key, name, kind: c.kind, sources }
}

/// The channels of a list of streams.
pub fn build_canonical(streams: &[LiveStream], curation: &Curation) -> (r: Vec<CanonicalChannel>)
    ensures
        channel_views(r@) == channels(streams@, *curation),
{
    let mut groups: Vec<CanonicalChannel> = Vec::new();
    let mut i: usize = 0;
    proof {
        assert(channel_views(groups@) =~= grouped(streams@.take(0), *curation));
    }
    while i < streams.len()
        invariant
            i <= streams@.len(),
            channel_views(groups@) == grouped(streams@.take(i as int), *curation),
        decreases streams@.len() - i,
    {
        proof {
            assert(streams@.take(i + 1).drop_last() =~= streams@.take(i as int));
        }
        add_stream(&mut groups, &streams[i], curation);
        i = i + 1;
    }
    proof {
        assert(streams@.take(i as int) =~= streams@);
    }
    let ghost all = groups@;
    let ghost done = grouped(streams@, *curation).map_values(
        |c: ChannelView| finished(c, curation.display_overrides@),
    );
    let mut list: Vec<CanonicalChannel> = Vec::new();
    for c in it: groups
        invariant
            it.seq() == all,
            channel_views(all) == grouped(streams@, *curation),
            done == grouped(streams@, *curation).map_values(
                |c: ChannelView| finished(c, curation.display_overrides@),
            ),
            channel_views(list@) == done.take(it.index()),
    {
        let ghost was = list@;
        let ghost k = it.index();
        proof {
            assert(channel_views(all)[k] == all[k]@);
        }
        list.push(finish_channel(c, &curation.display_overrides));
        proof {
            assert(done[k] == finished(channel_views(all)[k], curation.display_overrides@));
            assert(list@.last()@ == done[k]);
            assert(channel_views(list@) =~= channel_views(was).push(list@.last()@));
            assert(channel_views(list@) =~= done.take(k + 1));
        }
    }
    proof {
        assert(done.take(done.len() as int) =~= done);
        assert(channel_views(list@) == done);
        lemma_ranked_by_map(list@, |c: CanonicalChannel| c@, own_rank::<CanonicalChannel>(), channel_rank());
    }
    sort_ranked(list)
}

// --- Laws ---------------------------------------------------------------------------------

/// Aliases are looked up once, and by the key that the name has without them: an alias is not
/// looked up again.
pub proof fn law_one_alias_step(name: Seq<char>, aliases: Map<Seq<char>, String>)
    ensures
        ({
            let k = aliased_key(name, Map::empty());
            aliased_key(name, aliases) == if aliases.contains_key(k) {
                aliases[k]@
            } else {
                k
            }
        }),
{
}

/// No two channels have one key.
pub open spec fn distinct_keys(cs: Seq<ChannelView>) -> bool {
    forall|i: int, j: int| #![trigger cs[i], cs[j]] 0 <= i < j < cs.len() ==> cs[i].key != cs[j].key
}

/// The stream at `k` is among the sources of a channel with its key.
pub open spec fn placed(cs: Seq<ChannelView>, st: LiveStream, curation: Curation) -> bool {
    exists|i: int|
        0 <= i < cs.len() && (#[trigger] cs[i]).key == aliased_key(st.name@, curation.aliases@) && cs[i].sources.contains(
            source_of(st, curation),
        )
}

proof fn lemma_with_stream(cs: Seq<ChannelView>, st: LiveStream, curation: Curation)
    requires
        distinct_keys(cs),
    ensures
        distinct_keys(with_stream(cs, st, curation)),
        belongs(st, curation) ==> placed(with_stream(cs, st, curation), st, curation),
        forall|o: LiveStream| placed(cs, o, curation) ==> #[trigger] placed(with_stream(cs, st, curation), o, curation),
{
    if belongs(st, curation) {
        let key = aliased_key(st.name@, curation.aliases@);
        let i = key_index(cs, key);
        let r = with_stream(cs, st, curation);
        lemma_key_index(cs, key);
        assert(distinct_keys(r)) by {
            assert forall|a: int, b: int| #![trigger r[a], r[b]] 0 <= a < b < r.len() implies r[a].key != r[b].key by {
                if b < cs.len() {
                    assert(r[a].key == cs[a].key && r[b].key == cs[b].key);
                } else {
                    assert(r[a] == cs[a]);
                }
            }
        }
        let src = source_of(st, curation);
        if i < cs.len() {
            assert(r[i].sources.last() == src);
            assert(r[i].sources.contains(src));
        } else {
            assert(r[i].sources[0] == src);
            assert(r[i].sources.contains(src));
        }
        assert(r[i].key == key);
        assert forall|o: LiveStream| placed(cs, o, curation) implies #[trigger] placed(r, o, curation) by {
            let a = choose|a: int|
                0 <= a < cs.len() && (#[trigger] cs[a]).key == aliased_key(o.name@, curation.aliases@)
                    && cs[a].sources.contains(source_of(o, curation));
            let x = source_of(o, curation);
            let n = choose|n: int| 0 <= n < cs[a].sources.len() && cs[a].sources[n] == x;
            assert(r[a].key == cs[a].key);
            assert(r[a].sources[n] == x);
        }
    }
}

proof fn lemma_grouped(streams: Seq<LiveStream>, curation: Curation)
    ensures
        distinct_keys(grouped(streams, curation)),
        forall|k: int|
            0 <= k < streams.len() && belongs(#[trigger] streams[k], curation) ==> placed(
                grouped(streams, curation),
                streams[k],
                curation,
            ),
    decreases streams.len(),
{
    if streams.len() > 0 {
        let front = streams.drop_last();
        lemma_grouped(front, curation);
        lemma_with_stream(grouped(front, curation), streams.last(), curation);
        assert forall|k: int| 0 <= k < streams.len() && belongs(#[trigger] streams[k], curation) implies placed(
            grouped(streams, curation),
            streams[k],
            curation,
        ) by {
            if k < front.len() {
                assert(front[k] == streams[k]);
                assert(placed(grouped(front, curation), streams[k], curation));
            }
        }
    }
}

/// The channels of a list of streams have distinct keys.
pub proof fn law_channels_have_distinct_keys(streams: Seq<LiveStream>, curation: Curation)
    ensures
        distinct_keys(channels(streams, curation)),
{
    lemma_grouped(streams, curation);
    let g = grouped(streams, curation);
    let m = g.map_values(|c: ChannelView| finished(c, curation.display_overrides@));
    assert forall|i: int, j: int| #![trigger m[i], m[j]] 0 <= i < j < m.len() implies m[i].key != m[j].key by {
        assert(m[i].key == g[i].key && m[j].key == g[j].key);
    }
    assert(m.no_duplicates());
    lemma_ranked_no_duplicates(m, channel_rank());
    let r = ranked_by(m, channel_rank());
    assert forall|i: int, j: int| #![trigger r[i], r[j]] 0 <= i < j < r.len() implies r[i].key != r[j].key by {
        lemma_ranked_contains(m, channel_rank(), r[i]);
        lemma_ranked_contains(m, channel_rank(), r[j]);
        assert(r.contains(r[i]) && r.contains(r[j]));
        let a = choose|a: int| 0 <= a < m.len() && m[a] == r[i];
        let b = choose|b: int| 0 <= b < m.len() && m[b] == r[j];
        assert(r[i] != r[j]);
        if a < b {
            assert(m[a].key != m[b].key);
        } else {
            assert(m[b].key != m[a].key);
        }
    }
}

/// Every stream that belongs to a channel is a source of the channel with its key.
pub proof fn law_every_stream_is_placed(streams: Seq<LiveStream>, curation: Curation, k: int)
    requires
        0 <= k < streams.len(),
        belongs(streams[k], curation),
    ensures
        placed(channels(streams, curation), streams[k], curation),
{
    lemma_grouped(streams, curation);
    let g = grouped(streams, curation);
    let m = g.map_values(|c: ChannelView| finished(c, curation.display_overrides@));
    let r = channels(streams, curation);
    let x = source_of(streams[k], curation);
    let a = choose|a: int|
        0 <= a < g.len() && (#[trigger] g[a]).key == aliased_key(streams[k].name@, curation.aliases@)
            && g[a].sources.contains(x);
    assert(m[a] == finished(g[a], curation.display_overrides@));
    lemma_ranked_contains(g[a].sources, source_rank(), x);
    lemma_ranked_contains(m, channel_rank(), m[a]);
    assert(m.contains(m[a]));
    let i = choose|i: int| 0 <= i < r.len() && r[i] == m[a];
    assert(r[i].sources.contains(x));
}

/// The channels are in the order of their names, and the sources of each in the order of
/// their scores.
pub proof fn law_channels_are_in_order(streams: Seq<LiveStream>, curation: Curation)
    ensures
        is_ranked(channels(streams, curation), channel_rank()),
        forall|i: int|
            0 <= i < channels(streams, curation).len() ==> is_ranked(
                (#[trigger] channels(streams, curation)[i]).sources,
                source_rank(),
            ),
{
    let g = grouped(streams, curation);
    let m = g.map_values(|c: ChannelView| finished(c, curation.display_overrides@));
    let r = channels(streams, curation);
    law_ranked(m, channel_rank());
    assert forall|i: int| 0 <= i < r.len() implies is_ranked((#[trigger] r[i]).sources, source_rank()) by {
        lemma_ranked_contains(m, channel_rank(), r[i]);
        assert(r.contains(r[i]));
        let a = choose|a: int| 0 <= a < m.len() && m[a] == r[i];
        law_ranked(g[a].sources, source_rank());
    }
}

/// The sources that the streams make for the channel with the key, in the order of the streams.
pub open spec fn sources_for(streams: Seq<LiveStream>, key: Seq<char>, curation: Curation) -> Seq<SourceView>
    decreases streams.len(),
{
    if streams.len() == 0 {
        Seq::empty()
    } else {
        let front = sources_for(streams.drop_last(), key, curation);
        let st = streams.last();
        if belongs(st, curation) && aliased_key(st.name@, curation.aliases@) == key {
            front.push(source_of(st, curation))
        } else {
            front
        }
    }
}

/// The sources that have the score.
pub open spec fn with_score(s: Seq<SourceView>, score: i32) -> Seq<SourceView> {
    of_rank(s, source_rank(), seq![-(score as int)])
}

/// Of a key that no channel has, there is no source.
proof fn lemma_no_sources(streams: Seq<LiveStream>, key: Seq<char>, curation: Curation)
    requires
        forall|i: int|
            0 <= i < grouped(streams, curation).len() ==> (#[trigger] grouped(streams, curation)[i]).key != key,
    ensures
        sources_for(streams, key, curation).len() == 0,
    decreases streams.len(),
{
    if streams.len() > 0 {
        let (front, st) = (streams.drop_last(), streams.last());
        let (g, r) = (grouped(front, curation), grouped(streams, curation));
        lemma_key_index(g, aliased_key(st.name@, curation.aliases@));
        assert forall|i: int| 0 <= i < g.len() implies (#[trigger] g[i]).key != key by {
            assert(r[i].key == g[i].key);
        }
        lemma_no_sources(front, key, curation);
        if belongs(st, curation) {
            assert(r[key_index(g, aliased_key(st.name@, curation.aliases@))].key != key);
        }
    }
}

proof fn lemma_grouped_sources(streams: Seq<LiveStream>, curation: Curation)
    ensures
        forall|i: int|
            0 <= i < grouped(streams, curation).len() ==> (#[trigger] grouped(streams, curation)[i]).sources == sources_for(
                streams,
                grouped(streams, curation)[i].key,
                curation,
            ),
    decreases streams.len(),
{
    if streams.len() > 0 {
        let (front, st) = (streams.drop_last(), streams.last());
        let (g, r) = (grouped(front, curation), grouped(streams, curation));
        let key = aliased_key(st.name@, curation.aliases@);
        let k = key_index(g, key);
        lemma_grouped_sources(front, curation);
        lemma_grouped(front, curation);
        lemma_key_index(g, key);
        if belongs(st, curation) && k == g.len() {
            lemma_no_sources(front, key, curation);
        }
        assert forall|i: int| 0 <= i < r.len() implies (#[trigger] r[i]).sources == sources_for(streams, r[i].key, curation) by {
            if belongs(st, curation) {
                if i < g.len() {
                    assert(g[i].sources == sources_for(front, g[i].key, curation));
                    if i != k && g[i].key == key {
                        assert(g[k].key != g[i].key);
                    }
                } else {
                    assert(r[i].sources =~= sources_for(front, key, curation).push(source_of(st, curation)));
                }
            } else {
                assert(r[i] == g[i]);
            }
        }
    }
}

/// A channel is one of the groups, with its sources in order.
proof fn lemma_channel_group(streams: Seq<LiveStream>, curation: Curation, i: int) -> (a: int)
    requires
        0 <= i < channels(streams, curation).len(),
    ensures
        0 <= a < grouped(streams, curation).len(),
        channels(streams, curation)[i] == finished(grouped(streams, curation)[a], curation.display_overrides@),
{
    let g = grouped(streams, curation);
    let m = g.map_values(|c: ChannelView| finished(c, curation.display_overrides@));
    let r = channels(streams, curation);
    lemma_ranked_contains(m, channel_rank(), r[i]);
    assert(r.contains(r[i]));
    choose|a: int| 0 <= a < m.len() && m[a] == r[i]
}

/// The sources of a channel go by falling score, and those with one score stand in the order
/// of the streams.
pub proof fn law_sources_are_in_order(streams: Seq<LiveStream>, curation: Curation, i: int)
    requires
        0 <= i < channels(streams, curation).len(),
    ensures
        ({
            let c = channels(streams, curation)[i];
            &&& forall|a: int, b: int|
                #![trigger c.sources[a], c.sources[b]]
                0 <= a < b < c.sources.len() ==> c.sources[a].score >= c.sources[b].score
            &&& forall|score: i32| #[trigger]
                with_score(c.sources, score) == with_score(sources_for(streams, c.key, curation), score)
            &&& c.sources.to_multiset() == sources_for(streams, c.key, curation).to_multiset()
        }),
{
    let a = lemma_channel_group(streams, curation, i);
    let g = grouped(streams, curation)[a];
    let c = channels(streams, curation)[i];
    lemma_grouped_sources(streams, curation);
    law_ranked(g.sources, source_rank());
    assert forall|a: int, b: int| #![trigger c.sources[a], c.sources[b]] 0 <= a < b < c.sources.len() implies c.sources[a].score
        >= c.sources[b].score by {
        reveal_with_fuel(lex_lt, 2);
        assert(!lex_lt(source_rank()(c.sources[b]), source_rank()(c.sources[a])));
    }
    assert forall|score: i32| #[trigger]
        with_score(c.sources, score) == with_score(sources_for(streams, c.key, curation), score) by {
        law_ranked_is_stable(g.sources, source_rank(), seq![-(score as int)]);
    }
}

/// A name that is laid down for a key is the channel's name.
pub proof fn law_overrides_name_channels(streams: Seq<LiveStream>, curation: Curation, i: int)
    requires
        0 <= i < channels(streams, curation).len(),
        curation.display_overrides@.contains_key(channels(streams, curation)[i].key),
    ensures
        channels(streams, curation)[i].name == curation.display_overrides@[channels(streams, curation)[i].key]@,
{
    let a = lemma_channel_group(streams, curation, i);
}

proof fn lemma_sources_sound(streams: Seq<LiveStream>, key: Seq<char>, curation: Curation, x: SourceView)
    requires
        sources_for(streams, key, curation).contains(x),
    ensures
        exists|st: LiveStream| x == #[trigger] source_of(st, curation),
    decreases streams.len(),
{
    if streams.len() > 0 {
        let (all, front) = (sources_for(streams, key, curation), sources_for(streams.drop_last(), key, curation));
        let n = choose|n: int| 0 <= n < all.len() && all[n] == x;
        if n < front.len() {
            assert(front[n] == x);
            lemma_sources_sound(streams.drop_last(), key, curation, x);
        }
    }
}

/// A source has an archive exactly where it is told how many days it goes back, which is never
/// none, and no source's direct URL is blank.
pub proof fn law_sources_are_sound(streams: Seq<LiveStream>, curation: Curation, i: int, n: int)
    requires
        0 <= i < channels(streams, curation).len(),
        0 <= n < channels(streams, curation)[i].sources.len(),
    ensures
        ({
            let x = channels(streams, curation)[i].sources[n];
            &&& x.tv_archive <==> x.tv_archive_duration is Some
            &&& x.tv_archive_duration != Some(0u32)
            &&& x.direct_source matches Some(url) ==> trim(url).len() > 0
        }),
{
    let a = lemma_channel_group(streams, curation, i);
    let g = grouped(streams, curation)[a];
    let c = channels(streams, curation)[i];
    let x = c.sources[n];
    lemma_grouped_sources(streams, curation);
    lemma_ranked_contains(g.sources, source_rank(), x);
    assert(c.sources.contains(x));
    lemma_sources_sound(streams, g.key, curation, x);
}

/// A source tells what its stream says: its id, name, host and format; a picture and a URL of its
/// own only where they are not empty; and recordings only where the stream has some, for the days
/// that it keeps.
pub proof fn law_sources_tell_of_their_streams(st: LiveStream, curation: Curation, days: u64)
    requires
        0 < days <= u32::MAX,
    ensures
        ({
            let s = source_of(st, curation);
            &&& s.stream_id == st.stream_id
            &&& s.name == st.name@
            &&& s.origin_host == st.origin_host@
            &&& s.radio_format == st.radio_format
            &&& st.stream_icon@.len() > 0 ==> s.logo == Some(st.stream_icon@)
            &&& st.stream_icon@.len() == 0 ==> s.logo is None
            &&& st.direct_source is None ==> s.direct_source is None
            &&& st.direct_source matches Some(u) ==> (trim(u@).len() > 0 ==> s.direct_source == Some(u@)) && (trim(u@).len()
                == 0 ==> s.direct_source is None)
            &&& st.tv_archive == Some(Json::Number(Some(1u64))) && st.tv_archive_duration == Some(Json::Number(Some(days)))
                ==> s.tv_archive && s.tv_archive_duration == Some(days as u32)
            &&& st.tv_archive == Some(Json::Number(Some(0u64))) ==> !s.tv_archive && s.tv_archive_duration is None
            &&& st.tv_archive is None ==> !s.tv_archive && s.tv_archive_duration is None
            &&& s.tv_archive <==> s.tv_archive_duration is Some
        }),
{
}

/// Headings, and streams without a name, an id or a key, make no channel; all others do.
pub proof fn law_headings_make_no_channel(st: LiveStream, curation: Curation)
    ensures
        st.name@.len() == 0 ==> grouped(seq![st], curation).len() == 0,
        st.stream_id == 0 ==> grouped(seq![st], curation).len() == 0,
        pattern_matches(SEPARATOR@, trim(st.name@)) ==> grouped(seq![st], curation).len() == 0,
        st.name@.len() > 0 && st.stream_id != 0 && !pattern_matches(SEPARATOR@, trim(st.name@)) && aliased_key(
            st.name@,
            curation.aliases@,
        ).len() > 0 ==> {
            let c = grouped(seq![st], curation)[0];
            &&& grouped(seq![st], curation).len() == 1
            &&& c.key == aliased_key(st.name@, curation.aliases@)
            &&& c.name == shown_name(st.name@)
            &&& c.kind == st.kind
            &&& c.sources.len() == 1
            &&& c.sources[0].stream_id == st.stream_id
        },
{
    reveal_with_fuel(grouped, 2);
    assert(seq![st].drop_last() =~= Seq::empty());
    assert(key_index(Seq::empty(), aliased_key(st.name@, curation.aliases@)) == 0);
}

/// Two streams with one key are one channel, and two with different keys are two.
pub proof fn law_keys_make_channels(a: LiveStream, b: LiveStream, curation: Curation)
    requires
        belongs(a, curation),
        belongs(b, curation),
    ensures
        ({
            let g = grouped(seq![a, b], curation);
            let (x, y) = (aliased_key(a.name@, curation.aliases@), aliased_key(b.name@, curation.aliases@));
            &&& x == y ==> g.len() == 1 && g[0].sources.len() == 2 && g[0].sources[0].stream_id == a.stream_id
                && g[0].sources[1].stream_id == b.stream_id
            &&& x != y ==> g.len() == 2 && g[0].key == x && g[1].key == y
        }),
{
    reveal_with_fuel(grouped, 3);
    reveal_with_fuel(key_index, 2);
    assert(seq![a, b].drop_last() =~= seq![a]);
    assert(seq![a].drop_last() =~= Seq::empty());
    let g = grouped(seq![a], curation);
    assert(g.len() == 1);
    assert(g.drop_last() =~= Seq::empty());
}

/// What a name's marks are worth: each on its own, whatever the others.
pub proof fn law_marks_are_worth_their_points(m: QualityMarks)
    ensures
        mark_score(QualityMarks { raw: true, ..m }) == mark_score(QualityMarks { raw: false, ..m }) + 40,
        mark_score(QualityMarks { uhd: true, ..m }) == mark_score(QualityMarks { uhd: false, ..m }) + 30,
        mark_score(QualityMarks { fhd: true, ..m }) == mark_score(QualityMarks { fhd: false, ..m }) + 20,
        mark_score(QualityMarks { hd: true, ..m }) == mark_score(QualityMarks { hd: false, ..m }) + 15,
        mark_score(QualityMarks { sd: true, ..m }) == mark_score(QualityMarks { sd: false, ..m }) - 10,
        mark_score(QualityMarks { vip: true, ..m }) == mark_score(QualityMarks { vip: false, ..m }) + 10,
        mark_score(QualityMarks { raw: false, uhd: false, fhd: false, hd: false, sd: false, vip: false }) == 0,
{
}

/// A boost counts for the names that its pattern matches, and for no others.
pub proof fn law_boosts_count_where_they_match(s: i32, boosts: Seq<ProviderBoost>, b: ProviderBoost, name: Seq<char>)
    requires
        i32::MIN <= boosted(s, boosts, name) + b.score <= i32::MAX,
    ensures
        pattern_matches(b.pattern@, name) ==> boosted(s, boosts.push(b), name) == boosted(s, boosts, name) + b.score,
        !pattern_matches(b.pattern@, name) ==> boosted(s, boosts.push(b), name) == boosted(s, boosts, name),
{
    assert(boosts.push(b).drop_last() =~= boosts);
}

/// Of two names the one with accents is shown, else the longer one, else the first.
pub proof fn law_better_names_are_shown(a: Seq<char>, b: Seq<char>)
    ensures
        better_name(a, b, true, false) == a,
        better_name(a, b, false, true) == b,
        a.len() > b.len() ==> better_name(a, b, true, true) == a && better_name(a, b, false, false) == a,
        a.len() < b.len() ==> better_name(a, b, true, true) == b && better_name(a, b, false, false) == b,
        a.len() == b.len() ==> better_name(a, b, true, true) == a && better_name(a, b, false, false) == a,
{
}

/// A name is cut down only where at least three characters are left.
pub proof fn law_short_names_are_not_cut(s: Seq<char>, cut: Seq<char>)
    ensures
        trim(cut).len() <= 2 ==> unless_short(s, cut) == s,
        trim(cut).len() >= 3 ==> unless_short(s, cut) == trim(cut),
{
}

/// A sign in a name becomes a word; what stands before and behind it stays.
pub proof fn law_signs_become_words(a: Seq<char>, b: Seq<char>, c: char, with: Seq<char>)
    requires
        !a.contains(c),
        !b.contains(c),
    ensures
        replaced(a + seq![c] + b, c, with) == a + with + b,
        replaced(a, c, with) == a,
{
    lemma_replaced_without(a, c, with);
    let s = a + seq![c];
    assert(s.drop_last() =~= a);
    assert(s.last() == c);
    assert(replaced(s, c, with) == a + with);
    lemma_replaced_behind(s, b, c, with);
}

proof fn lemma_replaced_without(a: Seq<char>, c: char, with: Seq<char>)
    requires
        !a.contains(c),
    ensures
        replaced(a, c, with) == a,
    decreases a.len(),
{
    if a.len() > 0 {
        let t = a.drop_last();
        assert(a[a.len() - 1] == a.last());
        assert(!t.contains(c)) by {
            if t.contains(c) {
                let i = choose|i: int| 0 <= i < t.len() && t[i] == c;
                assert(a[i] == c);
            }
        }
        lemma_replaced_without(t, c, with);
        assert(t + seq![a.last()] =~= a);
    }
}

proof fn lemma_replaced_behind(s: Seq<char>, b: Seq<char>, c: char, with: Seq<char>)
    requires
        !b.contains(c),
    ensures
        replaced(s + b, c, with) == replaced(s, c, with) + b,
    decreases b.len(),
{
    if b.len() == 0 {
        assert(s + b =~= s);
        assert(replaced(s, c, with) + b =~= replaced(s, c, with));
    } else {
        let t = b.drop_last();
        assert(b[b.len() - 1] == b.last());
        assert(!t.contains(c)) by {
            if t.contains(c) {
                let i = choose|i: int| 0 <= i < t.len() && t[i] == c;
                assert(b[i] == c);
            }
        }
        lemma_replaced_behind(s, t, c, with);
        assert((s + b).drop_last() =~= s + t);
        assert((s + b).last() == b.last());
        assert(replaced(s, c, with) + t + seq![b.last()] =~= replaced(s, c, with) + b);
    }
}

} // verus!
