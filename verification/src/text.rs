//! Text as sequences of characters: splitting, trimming, searching and number
//! formatting, each stated over `Seq<char>`.
use vstd::prelude::*;
use vstd::slice::slice_subrange;
use vstd::string::StringExecFns;

verus! {

/// Unicode's White_Space property, which `str::trim` removes.
pub open spec fn white(c: char) -> bool {
    ||| '\u{9}' <= c <= '\u{d}'
    ||| c == ' ' || c == '\u{85}' || c == '\u{a0}' || c == '\u{1680}'
    ||| '\u{2000}' <= c <= '\u{200a}'
    ||| c == '\u{2028}' || c == '\u{2029}' || c == '\u{202f}' || c == '\u{205f}' || c == '\u{3000}'
}

pub open spec fn digit(c: char) -> bool {
    '0' <= c <= '9'
}

pub open spec fn ascii_alphanumeric(c: char) -> bool {
    digit(c) || 'a' <= c <= 'z' || 'A' <= c <= 'Z'
}

pub fn is_white(c: char) -> (r: bool)
    ensures
        r == white(c),
{
    ('\u{9}' <= c && c <= '\u{d}') || c == ' ' || c == '\u{85}' || c == '\u{a0}' || c == '\u{1680}'
        || ('\u{2000}' <= c && c <= '\u{200a}') || c == '\u{2028}' || c == '\u{2029}' || c == '\u{202f}'
        || c == '\u{205f}' || c == '\u{3000}'
}

pub fn is_digit(c: char) -> (r: bool)
    ensures
        r == digit(c),
{
    '0' <= c && c <= '9'
}

pub fn is_ascii_alphanumeric(c: char) -> (r: bool)
    ensures
        r == ascii_alphanumeric(c),
{
    is_digit(c) || ('a' <= c && c <= 'z') || ('A' <= c && c <= 'Z')
}

/// The characters of a string.
pub fn chars_of(s: &str) -> (r: Vec<char>)
    ensures
        r@ == s@,
{
    let mut out: Vec<char> = Vec::new();
    for c in it: s.chars()
        invariant
            it.seq() == s@,
            out@ == s@.take(it.index()),
    {
        proof {
            assert(s@.take(it.index() + 1) =~= s@.take(it.index()).push(s@[it.index()]));
        }
        out.push(c);
    }
    proof {
        assert(s@.take(s@.len() as int) =~= s@);
    }
    out
}

/// The string that holds the given characters.
pub fn string_of(v: &[char]) -> (r: String)
    ensures
        r@ == v@,
{
    let mut out = String::new();
    let mut i: usize = 0;
    while i < v.len()
        invariant
            i <= v@.len(),
            out@ == v@.take(i as int),
        decreases v@.len() - i,
    {
        proof {
            assert(v@.take(i + 1) =~= v@.take(i as int).push(v@[i as int]));
        }
        out.push(v[i]);
        i = i + 1;
    }
    proof {
        assert(v@.take(v@.len() as int) =~= v@);
    }
    out
}

/// Whether two character slices hold the same text.
pub fn same(a: &[char], b: &[char]) -> (r: bool)
    ensures
        r == (a@ == b@),
{
    if a.len() != b.len() {
        return false;
    }
    let mut i: usize = 0;
    while i < a.len()
        invariant
            a@.len() == b@.len(),
            i <= a@.len(),
            forall|j: int| 0 <= j < i ==> a@[j] == b@[j],
        decreases a@.len() - i,
    {
        if a[i] != b[i] {
            return false;
        }
        i = i + 1;
    }
    proof {
        assert(a@ =~= b@);
    }
    true
}

/// Whether two string slices hold the same text.
pub fn str_eq(a: &str, b: &str) -> (r: bool)
    ensures
        r == (a@ == b@),
{
    same(&chars_of(a), &chars_of(b))
}

/// `pat` stands in `s` at position `i`.
pub open spec fn occurs_at(s: Seq<char>, pat: Seq<char>, i: int) -> bool {
    0 <= i && i + pat.len() <= s.len() && s.subrange(i, i + pat.len()) == pat
}

/// `pat` stands somewhere in `s`.
pub open spec fn contains(s: Seq<char>, pat: Seq<char>) -> bool {
    exists|i: int| occurs_at(s, pat, i)
}

pub open spec fn starts_with(s: Seq<char>, pat: Seq<char>) -> bool {
    occurs_at(s, pat, 0)
}

pub open spec fn ends_with(s: Seq<char>, pat: Seq<char>) -> bool {
    occurs_at(s, pat, s.len() - pat.len())
}

/// The first position at or behind `i` at which `pat` stands in `s`.
pub open spec fn find_from(s: Seq<char>, pat: Seq<char>, i: int) -> Option<int>
    decreases s.len() + 1 - i,
{
    if i < 0 || i + pat.len() > s.len() {
        None
    } else if occurs_at(s, pat, i) {
        Some(i)
    } else {
        find_from(s, pat, i + 1)
    }
}

pub open spec fn find(s: Seq<char>, pat: Seq<char>) -> Option<int> {
    find_from(s, pat, 0)
}

/// Whether `pat` stands in `s` at position `i`.
pub fn is_at(s: &[char], pat: &[char], i: usize) -> (r: bool)
    ensures
        r == occurs_at(s@, pat@, i as int),
{
    if i > s.len() || s.len() - i < pat.len() {
        return false;
    }
    same(slice_subrange(s, i, i + pat.len()), pat)
}

pub proof fn lemma_find_from(s: Seq<char>, pat: Seq<char>, i: int)
    requires
        0 <= i,
    ensures
        find_from(s, pat, i) matches Some(k) ==> i <= k && occurs_at(s, pat, k) && forall|j: int|
            i <= j < k ==> !occurs_at(s, pat, j),
        find_from(s, pat, i) is None ==> forall|j: int| i <= j ==> !occurs_at(s, pat, j),
    decreases s.len() + 1 - i,
{
    if i + pat.len() <= s.len() && !occurs_at(s, pat, i) {
        lemma_find_from(s, pat, i + 1);
    }
}

/// The first position of `pat` in `s` at or behind `from`.
pub fn find_at(s: &[char], pat: &[char], from: usize) -> (r: Option<usize>)
    ensures
        r matches Some(k) ==> find_from(s@, pat@, from as int) == Some(k as int) && k + pat@.len() <= s@.len()
            && from <= k && occurs_at(s@, pat@, k as int),
        r is None ==> find_from(s@, pat@, from as int) is None,
{
    let mut i: usize = from;
    while i <= s.len() && pat.len() <= s.len() - i
        invariant
            from <= i,
            find_from(s@, pat@, from as int) == find_from(s@, pat@, i as int),
        decreases s@.len() + 1 - i,
    {
        if is_at(s, pat, i) {
            return Some(i);
        }
        if i == s.len() {
            proof {
                assert(find_from(s@, pat@, i + 1) is None);
            }
            return None;
        }
        i = i + 1;
    }
    None
}

/// Whether `pat` stands somewhere in `s`.
pub fn has(s: &[char], pat: &[char]) -> (r: bool)
    ensures
        r == contains(s@, pat@),
{
    let f = find_at(s, pat, 0);
    proof {
        lemma_find_from(s@, pat@, 0);
        if f is None && contains(s@, pat@) {
            let i = choose|i: int| occurs_at(s@, pat@, i);
            assert(occurs_at(s@, pat@, i) && 0 <= i);
        }
    }
    f.is_some()
}

/// Whether the string `s` holds the string `pat`.
pub fn str_has(s: &str, pat: &str) -> (r: bool)
    ensures
        r == contains(s@, pat@),
{
    has(&chars_of(s), &chars_of(pat))
}

/// Whether the string `s` starts with the string `pat`.
pub fn str_starts_with(s: &str, pat: &str) -> (r: bool)
    ensures
        r == starts_with(s@, pat@),
{
    is_at(&chars_of(s), &chars_of(pat), 0)
}

pub fn is_prefix(s: &[char], pat: &str) -> (r: bool)
    ensures
        r == starts_with(s@, pat@),
{
    is_at(s, &chars_of(pat), 0)
}

pub fn is_suffix(s: &[char], pat: &str) -> (r: bool)
    ensures
        r == ends_with(s@, pat@),
{
    let p = chars_of(pat);
    p.len() <= s.len() && is_at(s, &p, s.len() - p.len())
}

// --- Trimming ------------------------------------------------------------------

/// Drops the leading characters for which `white` holds.
pub open spec fn trim_start(s: Seq<char>) -> Seq<char>
    decreases s.len(),
{
    if s.len() > 0 && white(s[0]) {
        trim_start(s.drop_first())
    } else {
        s
    }
}

/// Drops the trailing characters for which `white` holds.
pub open spec fn trim_end(s: Seq<char>) -> Seq<char>
    decreases s.len(),
{
    if s.len() > 0 && white(s.last()) {
        trim_end(s.drop_last())
    } else {
        s
    }
}

/// `str::trim`: white space off both ends.
pub open spec fn trim(s: Seq<char>) -> Seq<char> {
    trim_end(trim_start(s))
}

pub fn trim_chars(s: &[char]) -> (r: &[char])
    ensures
        r@ == trim(s@),
{
    let mut i: usize = 0;
    proof {
        assert(s@.skip(0) =~= s@);
    }
    while i < s.len() && is_white(s[i])
        invariant
            i <= s@.len(),
            trim_start(s@) == trim_start(s@.skip(i as int)),
        decreases s@.len() - i,
    {
        proof {
            assert(s@.skip(i as int).drop_first() =~= s@.skip(i + 1));
        }
        i = i + 1;
    }
    let a = slice_subrange(s, i, s.len());
    proof {
        assert(a@ =~= s@.skip(i as int));
        assert(trim_start(s@) == a@);
    }
    let mut j: usize = a.len();
    proof {
        assert(a@.take(j as int) =~= a@);
    }
    while j > 0 && is_white(a[j - 1])
        invariant
            j <= a@.len(),
            trim_end(a@) == trim_end(a@.take(j as int)),
        decreases j,
    {
        proof {
            assert(a@.take(j as int).drop_last() =~= a@.take(j - 1));
        }
        j = j - 1;
    }
    let r = slice_subrange(a, 0, j);
    proof {
        assert(r@ =~= a@.take(j as int));
    }
    r
}

/// `str::trim` on a string.
pub fn trim_str(s: &str) -> (r: String)
    ensures
        r@ == trim(s@),
{
    let v = chars_of(s);
    string_of(trim_chars(&v))
}

/// Drops every trailing `c`.
pub open spec fn trim_end_char(s: Seq<char>, c: char) -> Seq<char>
    decreases s.len(),
{
    if s.len() > 0 && s.last() == c {
        trim_end_char(s.drop_last(), c)
    } else {
        s
    }
}

/// `str::trim_end_matches` with a character.
pub fn trim_end_matches(s: &str, c: char) -> (r: String)
    ensures
        r@ == trim_end_char(s@, c),
{
    let a = chars_of(s);
    let mut j: usize = a.len();
    proof {
        assert(a@.take(j as int) =~= a@);
    }
    while j > 0 && a[j - 1] == c
        invariant
            j <= a@.len(),
            trim_end_char(a@, c) == trim_end_char(a@.take(j as int), c),
        decreases j,
    {
        proof {
            assert(a@.take(j as int).drop_last() =~= a@.take(j - 1));
        }
        j = j - 1;
    }
    let r = slice_subrange(&a, 0, j);
    proof {
        assert(r@ =~= a@.take(j as int));
    }
    string_of(r)
}

// --- Splitting -----------------------------------------------------------------

/// The position of the first `c` in `s`, or the length of `s`.
pub open spec fn index_or_len(s: Seq<char>, c: char) -> int
    decreases s.len(),
{
    if s.len() == 0 || s[0] == c {
        0
    } else {
        1 + index_or_len(s.drop_first(), c)
    }
}

pub proof fn lemma_index_or_len(s: Seq<char>, c: char)
    ensures
        0 <= index_or_len(s, c) <= s.len(),
        index_or_len(s, c) < s.len() ==> s[index_or_len(s, c)] == c,
        forall|i: int| 0 <= i < index_or_len(s, c) ==> s[i] != c,
    decreases s.len(),
{
    if s.len() > 0 && s[0] != c {
        lemma_index_or_len(s.drop_first(), c);
        assert forall|i: int| 0 <= i < index_or_len(s, c) implies s[i] != c by {
            if i > 0 {
                assert(s.drop_first()[i - 1] == s[i]);
            }
        }
    }
}

/// `str::split` at a character: the pieces between the separators, empty ones too.
pub open spec fn split(s: Seq<char>, c: char) -> Seq<Seq<char>>
    decreases s.len(),
{
    let i = index_or_len(s, c);
    if i < 0 || i >= s.len() {
        seq![s]
    } else {
        seq![s.take(i)] + split(s.skip(i + 1), c)
    }
}

/// The first piece of `str::split` at a character: all that stands before it.
pub open spec fn before(s: Seq<char>, c: char) -> Seq<char> {
    s.take(index_or_len(s, c))
}

/// The position of the first `c` at or behind `from`, or the length.
pub fn index_of(s: &[char], c: char, from: usize) -> (r: usize)
    requires
        from <= s@.len(),
    ensures
        r == from + index_or_len(s@.skip(from as int), c),
        from <= r <= s@.len(),
        r < s@.len() ==> s@[r as int] == c,
{
    let mut i: usize = from;
    while i < s.len() && s[i] != c
        invariant
            from <= i <= s@.len(),
            from + index_or_len(s@.skip(from as int), c) == i + index_or_len(s@.skip(i as int), c),
        decreases s@.len() - i,
    {
        proof {
            assert(s@.skip(i as int).drop_first() =~= s@.skip(i + 1));
        }
        i = i + 1;
    }
    i
}

/// The views of a vector of character vectors.
pub open spec fn views(v: Seq<Vec<char>>) -> Seq<Seq<char>> {
    Seq::new(v.len(), |i: int| v[i]@)
}

pub fn copy_range(s: &[char], i: usize, j: usize) -> (r: Vec<char>)
    requires
        i <= j <= s@.len(),
    ensures
        r@ == s@.subrange(i as int, j as int),
{
    vstd::slice::slice_to_vec(slice_subrange(s, i, j))
}

pub fn split_chars(s: &[char], c: char) -> (r: Vec<Vec<char>>)
    ensures
        views(r@) == split(s@, c),
{
    let mut out: Vec<Vec<char>> = Vec::new();
    let mut from: usize = 0;
    proof {
        assert(s@.skip(0) =~= s@);
        assert(views(out@) + split(s@, c) =~= split(s@, c));
    }
    loop
        invariant
            from <= s@.len(),
            views(out@) + split(s@.skip(from as int), c) == split(s@, c),
        decreases s@.len() - from,
    {
        let i = index_of(s, c, from);
        let ghost rest = s@.skip(from as int);
        let piece = copy_range(s, from, i);
        let ghost before_push = views(out@);
        out.push(piece);
        proof {
            lemma_index_or_len(rest, c);
            assert(views(out@) =~= before_push.push(s@.subrange(from as int, i as int)));
            assert(s@.subrange(from as int, i as int) =~= rest.take(i - from));
        }
        if i >= s.len() {
            proof {
                assert(rest.take(i - from) =~= rest);
                assert(views(out@) =~= before_push + split(rest, c));
            }
            return out;
        }
        proof {
            assert(rest.skip(i - from + 1) =~= s@.skip(i + 1));
            assert(views(out@) + split(s@.skip(i + 1), c) =~= before_push + split(rest, c));
        }
        from = i + 1;
    }
}

/// Drops one trailing carriage return.
pub open spec fn strip_cr(s: Seq<char>) -> Seq<char> {
    if s.len() > 0 && s.last() == '\r' {
        s.drop_last()
    } else {
        s
    }
}

/// `str::lines`: the text cut behind each line feed, without the line feed and one
/// carriage return before it; what follows the last line feed is a line only where
/// it is not empty, and keeps its carriage return.
pub open spec fn lines(s: Seq<char>) -> Seq<Seq<char>>
    decreases s.len(),
{
    let i = index_or_len(s, '\n');
    if s.len() == 0 {
        Seq::empty()
    } else if i < 0 || i >= s.len() {
        seq![s]
    } else {
        seq![strip_cr(s.take(i))] + lines(s.skip(i + 1))
    }
}

pub fn lines_of(s: &[char]) -> (r: Vec<Vec<char>>)
    ensures
        views(r@) == lines(s@),
{
    let mut out: Vec<Vec<char>> = Vec::new();
    let mut from: usize = 0;
    proof {
        assert(s@.skip(0) =~= s@);
        assert(views(out@) + lines(s@) =~= lines(s@));
    }
    while from < s.len()
        invariant
            from <= s@.len(),
            views(out@) + lines(s@.skip(from as int)) == lines(s@),
        decreases s@.len() - from,
    {
        let i = index_of(s, '\n', from);
        let ghost rest = s@.skip(from as int);
        let ghost before_push = views(out@);
        proof {
            lemma_index_or_len(rest, '\n');
        }
        if i >= s.len() {
            out.push(copy_range(s, from, i));
            proof {
                assert(views(out@) =~= before_push.push(s@.subrange(from as int, i as int)));
                assert(s@.subrange(from as int, i as int) =~= rest);
                assert(views(out@) =~= before_push + lines(rest));
                assert(before_push + lines(rest) == lines(s@));
            }
            return out;
        }
        let end: usize = if i > from && s[i - 1] == '\r' {
            i - 1
        } else {
            i
        };
        out.push(copy_range(s, from, end));
        proof {
            let whole = s@.subrange(from as int, i as int);
            assert(whole =~= rest.take(i - from));
            if i > from {
                assert(whole.last() == s@[i - 1]);
                assert(whole.drop_last() =~= s@.subrange(from as int, i - 1));
            }
            assert(s@.subrange(from as int, end as int) =~= strip_cr(rest.take(i - from)));
            assert(views(out@) =~= before_push.push(strip_cr(rest.take(i - from))));
            assert(rest.skip(i - from + 1) =~= s@.skip(i + 1));
            assert(views(out@) + lines(s@.skip(i + 1)) =~= before_push + lines(rest));
        }
        from = i + 1;
    }
    proof {
        assert(lines(s@.skip(from as int)) =~= Seq::empty());
        assert(views(out@) =~= views(out@) + lines(s@.skip(from as int)));
    }
    out
}

// --- ASCII case ----------------------------------------------------------------

pub open spec fn lower(c: char) -> char {
    if 'A' <= c <= 'Z' {
        ((c as u32) + 32) as char
    } else {
        c
    }
}

/// `str::to_ascii_lowercase`.
pub open spec fn ascii_lowercase(s: Seq<char>) -> Seq<char> {
    s.map_values(|c: char| lower(c))
}

/// The text is ASCII.
pub open spec fn ascii(s: Seq<char>) -> bool {
    forall|i: int| 0 <= i < s.len() ==> (#[trigger] s[i] as u32) < 0x80
}

/// No ASCII capital stands in the text.
pub open spec fn no_capitals(s: Seq<char>) -> bool {
    forall|i: int| 0 <= i < s.len() ==> !('A' <= #[trigger] s[i] && s[i] <= 'Z')
}

pub fn lower_char(c: char) -> (r: char)
    ensures
        r == lower(c),
{
    if 'A' <= c && c <= 'Z' {
        let b: u8 = c as u8 + 32;
        b as char
    } else {
        c
    }
}

pub fn lower_chars(s: &[char]) -> (r: Vec<char>)
    ensures
        r@ == ascii_lowercase(s@),
{
    let mut out: Vec<char> = Vec::new();
    let mut i: usize = 0;
    while i < s.len()
        invariant
            i <= s@.len(),
            out@ == ascii_lowercase(s@.take(i as int)),
        decreases s@.len() - i,
    {
        out.push(lower_char(s[i]));
        proof {
            assert(ascii_lowercase(s@.take(i + 1)) =~= ascii_lowercase(s@.take(i as int)).push(lower(s@[i as int])));
        }
        i = i + 1;
    }
    proof {
        assert(s@.take(s@.len() as int) =~= s@);
    }
    out
}

pub fn str_lower(s: &str) -> (r: String)
    ensures
        r@ == ascii_lowercase(s@),
{
    string_of(&lower_chars(&chars_of(s)))
}

/// What follows the last `c` in `s`, or all of it.
pub open spec fn after_last(s: Seq<char>, c: char) -> Seq<char>
    decreases s.len(),
{
    if s.len() == 0 || s.last() == c {
        Seq::empty()
    } else {
        after_last(s.drop_last(), c).push(s.last())
    }
}

/// All that stands before the first `c`.
pub fn before_char(s: &[char], c: char) -> (r: &[char])
    ensures
        r@ == before(s@, c),
{
    proof {
        lemma_index_or_len(s@, c);
        assert(s@.skip(0) =~= s@);
    }
    let i = index_of(s, c, 0);
    let r = slice_subrange(s, 0, i);
    proof {
        assert(r@ =~= s@.take(i as int));
    }
    r
}

/// What follows the last `c`, or all of it.
pub fn after_last_char(s: &[char], c: char) -> (r: &[char])
    ensures
        r@ == after_last(s@, c),
{
    let mut i: usize = s.len();
    proof {
        assert(s@.take(i as int) =~= s@);
        assert(after_last(s@.take(i as int), c) + s@.skip(i as int) =~= after_last(s@, c));
    }
    while i > 0 && s[i - 1] != c
        invariant
            i <= s@.len(),
            after_last(s@.take(i as int), c) + s@.skip(i as int) == after_last(s@, c),
        decreases i,
    {
        proof {
            assert(s@.take(i as int).drop_last() =~= s@.take(i - 1));
            assert(after_last(s@.take(i - 1), c) + s@.skip(i - 1) =~= after_last(s@.take(i as int), c) + s@.skip(
                i as int,
            ));
        }
        i = i - 1;
    }
    let r = slice_subrange(s, i, s.len());
    proof {
        assert(after_last(s@.take(i as int), c) =~= Seq::empty());
        assert(r@ =~= after_last(s@, c));
    }
    r
}

/// Drops every trailing `pat`.
pub open spec fn trim_end_text(s: Seq<char>, pat: Seq<char>) -> Seq<char>
    decreases s.len(),
{
    if pat.len() > 0 && ends_with(s, pat) {
        trim_end_text(s.take(s.len() - pat.len()), pat)
    } else {
        s
    }
}

/// `str::trim_end_matches` with a text.
pub fn trim_end_str(s: &[char], pat: &str) -> (r: Vec<char>)
    ensures
        r@ == trim_end_text(s@, pat@),
{
    let p = chars_of(pat);
    let mut n: usize = s.len();
    proof {
        assert(s@.take(n as int) =~= s@);
    }
    while p.len() > 0 && p.len() <= n && is_at(slice_subrange(s, 0, n), &p, n - p.len())
        invariant
            n <= s@.len(),
            p@ == pat@,
            trim_end_text(s@, pat@) == trim_end_text(s@.take(n as int), pat@),
        decreases n,
    {
        proof {
            assert(s@.subrange(0, n as int) =~= s@.take(n as int));
            assert(s@.take(n as int).take(n - p@.len()) =~= s@.take(n - p@.len()));
        }
        n = n - p.len();
    }
    proof {
        assert(s@.subrange(0, n as int) =~= s@.take(n as int));
    }
    copy_range(s, 0, n)
}

// --- Numbers -------------------------------------------------------------------

pub open spec fn digit_char(d: nat) -> char {
    ((0x30 + d) as u32) as char
}

/// The decimal digits of `n`, without leading zeros.
pub open spec fn decimal(n: nat) -> Seq<char>
    decreases n,
{
    if n < 10 {
        seq![digit_char(n)]
    } else {
        decimal(n / 10).push(digit_char(n % 10))
    }
}

/// What a run of decimal digits stands for.
pub open spec fn number(s: Seq<char>) -> nat
    decreases s.len(),
{
    if s.len() == 0 {
        0
    } else {
        (10 * number(s.drop_last()) + (s.last() as u32 - 0x30)) as nat
    }
}

pub open spec fn all_digits(s: Seq<char>) -> bool {
    forall|i: int| 0 <= i < s.len() ==> digit(s[i])
}

/// Without one leading plus sign.
pub open spec fn unsigned_part(s: Seq<char>) -> Seq<char> {
    if s.len() > 0 && s[0] == '+' {
        s.drop_first()
    } else {
        s
    }
}

/// `str::parse::<u64>`: an optional plus sign and at least one digit, in range.
pub open spec fn parse_u64(s: Seq<char>) -> Option<u64> {
    let d = unsigned_part(s);
    if d.len() > 0 && all_digits(d) && number(d) <= u64::MAX {
        Some(number(d) as u64)
    } else {
        None
    }
}

pub proof fn lemma_number_prefix(s: Seq<char>, i: int)
    requires
        0 <= i <= s.len(),
        all_digits(s),
    ensures
        number(s.take(i)) <= number(s),
    decreases s.len() - i,
{
    if i < s.len() {
        lemma_number_prefix(s, i + 1);
        assert(s.take(i + 1).drop_last() =~= s.take(i));
    } else {
        assert(s.take(i) =~= s);
    }
}

/// The value of a run of digits, where it is one, is not empty and fits.
pub fn digits_to_u64(s: &[char]) -> (r: Option<u64>)
    ensures
        r == if s@.len() > 0 && all_digits(s@) && number(s@) <= u64::MAX {
            Some(number(s@) as u64)
        } else {
            None
        },
{
    if s.len() == 0 {
        return None;
    }
    let mut i: usize = 0;
    let mut v: u64 = 0;
    while i < s.len()
        invariant
            i <= s@.len(),
            all_digits(s@.take(i as int)),
            v == number(s@.take(i as int)),
        decreases s@.len() - i,
    {
        let c = s[i];
        if !is_digit(c) {
            return None;
        }
        let d: u64 = (c as u32 - 0x30) as u64;
        proof {
            assert(s@.take(i + 1).drop_last() =~= s@.take(i as int));
            assert(number(s@.take(i + 1)) == 10 * v + d);
            if all_digits(s@) {
                lemma_number_prefix(s@, i + 1);
            }
        }
        if v > (u64::MAX - d) / 10 {
            proof {
                assert(10 * v + d > u64::MAX);
            }
            return None;
        }
        v = v * 10 + d;
        i = i + 1;
    }
    proof {
        assert(s@.take(s@.len() as int) =~= s@);
    }
    Some(v)
}

/// `str::parse::<u64>`.
pub fn to_u64(s: &[char]) -> (r: Option<u64>)
    ensures
        r == parse_u64(s@),
{
    if s.len() > 0 && s[0] == '+' {
        let d = slice_subrange(s, 1, s.len());
        proof {
            assert(d@ =~= s@.drop_first());
        }
        digits_to_u64(d)
    } else {
        digits_to_u64(s)
    }
}

pub fn digit_to_char(d: u64) -> (r: char)
    requires
        d < 10,
    ensures
        r == digit_char(d as nat),
        digit(r),
{
    let b: u8 = d as u8 + 0x30;
    b as char
}

/// Appends the decimal digits of `n`.
pub fn push_decimal(out: &mut String, n: u64)
    ensures
        final(out)@ == old(out)@ + decimal(n as nat),
    decreases n,
{
    if n < 10 {
        out.push(digit_to_char(n));
        proof {
            assert(final(out)@ =~= old(out)@ + decimal(n as nat));
        }
    } else {
        push_decimal(out, n / 10);
        out.push(digit_to_char(n % 10));
        proof {
            assert(final(out)@ =~= old(out)@ + decimal(n as nat));
        }
    }
}

/// The decimal digits of `n` as a string.
pub fn decimal_string(n: u64) -> (r: String)
    ensures
        r@ == decimal(n as nat),
{
    let mut s = String::new();
    push_decimal(&mut s, n);
    proof {
        assert(s@ =~= decimal(n as nat));
    }
    s
}

/// Reading back what was written gives the number again.
pub proof fn lemma_decimal_round_trip(n: nat)
    ensures
        all_digits(decimal(n)),
        decimal(n).len() > 0,
        number(decimal(n)) == n,
        n <= u64::MAX ==> parse_u64(decimal(n)) == Some(n as u64),
    decreases n,
{
    reveal_with_fuel(number, 2);
    if n < 10 {
        assert(decimal(n).drop_last() =~= Seq::empty());
    } else {
        lemma_decimal_round_trip(n / 10);
        assert(decimal(n).drop_last() =~= decimal(n / 10));
    }
    assert(digit(decimal(n)[0]));
}

/// The decimal digits of `n`, with zeros before them up to `width` digits.
pub open spec fn padded(n: nat, width: nat) -> Seq<char> {
    let d = decimal(n);
    if d.len() < width {
        Seq::new((width - d.len()) as nat, |i: int| '0') + d
    } else {
        d
    }
}

/// Appends a number with leading zeros.
pub fn push_padded(out: &mut String, n: u64, width: usize)
    ensures
        final(out)@ == old(out)@ + padded(n as nat, width as nat),
{
    let d = chars_of(&decimal_string(n));
    let ghost start = out@;
    let mut i: usize = d.len();
    while i < width
        invariant
            d@ == decimal(n as nat),
            d@.len() <= i,
            i <= width || i == d@.len(),
            out@ == start + Seq::new((i - d@.len()) as nat, |j: int| '0'),
        decreases width - i,
    {
        let ghost was = out@;
        out.push('0');
        i = i + 1;
        proof {
            assert(out@ =~= start + Seq::new((i - d@.len()) as nat, |j: int| '0'));
        }
    }
    let tail = string_of(&d);
    push_text(out, &tail);
    proof {
        assert(out@ =~= start + padded(n as nat, width as nat));
    }
}

/// `str::parse::<i64>`: an optional sign and at least one digit, in range.
pub open spec fn parse_i64(s: Seq<char>) -> Option<i64> {
    if s.len() > 0 && s[0] == '-' {
        let d = s.drop_first();
        if d.len() > 0 && all_digits(d) && number(d) <= 0x8000_0000_0000_0000 {
            Some((-(number(d) as int)) as i64)
        } else {
            None
        }
    } else {
        let d = unsigned_part(s);
        if d.len() > 0 && all_digits(d) && number(d) <= i64::MAX {
            Some(number(d) as i64)
        } else {
            None
        }
    }
}

/// `str::parse::<i64>`.
pub fn to_i64(s: &[char]) -> (r: Option<i64>)
    ensures
        r == parse_i64(s@),
{
    if s.len() > 0 && s[0] == '-' {
        let d = slice_subrange(s, 1, s.len());
        proof {
            assert(d@ =~= s@.drop_first());
        }
        match digits_to_u64(d) {
            Some(n) => if n < 0x8000_0000_0000_0000 {
                Some(-(n as i64))
            } else if n == 0x8000_0000_0000_0000 {
                Some(i64::MIN)
            } else {
                None
            },
            None => None,
        }
    } else {
        match to_u64(s) {
            Some(n) => if n <= i64::MAX as u64 {
                Some(n as i64)
            } else {
                None
            },
            None => None,
        }
    }
}

/// `str::parse::<u32>`: an optional plus sign and at least one digit, in range.
pub open spec fn parse_u32(s: Seq<char>) -> Option<u32> {
    match parse_u64(s) {
        Some(n) if n <= u32::MAX => Some(n as u32),
        _ => None,
    }
}

/// `str::parse::<u32>`.
pub fn to_u32(s: &[char]) -> (r: Option<u32>)
    ensures
        r == parse_u32(s@),
{
    match to_u64(s) {
        Some(n) => if n <= u32::MAX as u64 {
            Some(n as u32)
        } else {
            None
        },
        None => None,
    }
}

/// `s` with every `c` replaced by the text `with`.
pub open spec fn replaced(s: Seq<char>, c: char, with: Seq<char>) -> Seq<char>
    decreases s.len(),
{
    if s.len() == 0 {
        s
    } else {
        replaced(s.drop_last(), c, with) + if s.last() == c {
            with
        } else {
            seq![s.last()]
        }
    }
}

/// `str::replace` of a character.
pub fn replace_char(s: &str, c: char, with: &str) -> (r: String)
    ensures
        r@ == replaced(s@, c, with@),
{
    let v = chars_of(s);
    let mut out = String::new();
    let mut i: usize = 0;
    proof {
        assert(v@.take(0) =~= Seq::empty());
    }
    while i < v.len()
        invariant
            i <= v@.len(),
            out@ == replaced(v@.take(i as int), c, with@),
        decreases v@.len() - i,
    {
        let ghost was = out@;
        proof {
            assert(v@.take(i + 1).drop_last() =~= v@.take(i as int));
        }
        if v[i] == c {
            push_text(&mut out, with);
        } else {
            out.push(v[i]);
        }
        proof {
            assert(out@ =~= replaced(v@.take(i + 1), c, with@));
        }
        i = i + 1;
    }
    proof {
        assert(v@.take(i as int) =~= v@);
    }
    out
}

/// The ASCII letters and digits of `s`.
pub open spec fn ascii_alphanumerics(s: Seq<char>) -> Seq<char>
    decreases s.len(),
{
    if s.len() == 0 {
        s
    } else if ascii_alphanumeric(s.last()) {
        ascii_alphanumerics(s.drop_last()).push(s.last())
    } else {
        ascii_alphanumerics(s.drop_last())
    }
}

/// The ASCII letters and digits of a text without capitals are small letters and digits.
pub proof fn lemma_small_alphanumerics(s: Seq<char>)
    requires
        no_capitals(s),
    ensures
        forall|i: int|
            0 <= i < ascii_alphanumerics(s).len() ==> digit(#[trigger] ascii_alphanumerics(s)[i]) || ('a'
                <= ascii_alphanumerics(s)[i] && ascii_alphanumerics(s)[i] <= 'z'),
    decreases s.len(),
{
    if s.len() > 0 {
        let t = s.drop_last();
        assert forall|i: int| 0 <= i < t.len() implies !('A' <= #[trigger] t[i] && t[i] <= 'Z') by {
            assert(t[i] == s[i]);
        }
        lemma_small_alphanumerics(t);
        let c = s[s.len() - 1];
        assert(!('A' <= c && c <= 'Z'));
        let (r, u) = (ascii_alphanumerics(s), ascii_alphanumerics(t));
        assert forall|i: int| 0 <= i < r.len() implies digit(#[trigger] r[i]) || ('a' <= r[i] && r[i] <= 'z') by {
            if i < u.len() {
                assert(r[i] == u[i]);
            }
        }
    }
}

pub fn keep_ascii_alphanumerics(s: &str) -> (r: String)
    ensures
        r@ == ascii_alphanumerics(s@),
{
    let v = chars_of(s);
    let mut out = String::new();
    let mut i: usize = 0;
    while i < v.len()
        invariant
            i <= v@.len(),
            out@ == ascii_alphanumerics(v@.take(i as int)),
        decreases v@.len() - i,
    {
        proof {
            assert(v@.take(i + 1).drop_last() =~= v@.take(i as int));
        }
        if is_ascii_alphanumeric(v[i]) {
            out.push(v[i]);
        }
        i = i + 1;
    }
    proof {
        assert(v@.take(i as int) =~= v@);
    }
    out
}

// --- Strings in options ----------------------------------------------------------

/// The text in an optional string.
pub open spec fn opt_text(o: Option<String>) -> Option<Seq<char>> {
    match o {
        Some(s) => Some(s@),
        None => None,
    }
}

/// The texts of a vector of strings.
pub open spec fn texts(v: Seq<String>) -> Seq<Seq<char>> {
    Seq::new(v.len(), |i: int| v[i]@)
}

/// Appends a text to a string.
pub fn push_text(out: &mut String, s: &str)
    ensures
        final(out)@ == old(out)@ + s@,
{
    out.append(s);
}

pub fn owned(s: &str) -> (r: String)
    ensures
        r@ == s@,
{
    s.to_owned()
}

// --- Hexadecimal -----------------------------------------------------------------

pub open spec fn hex_char(d: nat) -> char {
    if d < 10 {
        digit_char(d)
    } else {
        ((0x57 + d) as u32) as char
    }
}

/// The last `width` digits of `n` to base 16, in lower case.
pub open spec fn hex(n: nat, width: nat) -> Seq<char>
    decreases width,
{
    if width == 0 {
        Seq::empty()
    } else {
        hex(n / 16, (width - 1) as nat).push(hex_char(n % 16))
    }
}

pub fn hex_to_char(d: u64) -> (r: char)
    requires
        d < 16,
    ensures
        r == hex_char(d as nat),
{
    if d < 10 {
        digit_to_char(d)
    } else {
        let b: u8 = d as u8 + 0x57;
        b as char
    }
}

/// Appends the last `width` digits of `n` to base 16.
pub fn push_hex(out: &mut String, n: u64, width: usize)
    ensures
        final(out)@ == old(out)@ + hex(n as nat, width as nat),
    decreases width,
{
    if width > 0 {
        push_hex(out, n / 16, width - 1);
        out.push(hex_to_char(n % 16));
    }
    proof {
        assert(out@ =~= old(out)@ + hex(n as nat, width as nat));
    }
}

/// The last `width` digits of `n` to base 16.
pub fn hex_string(n: u64, width: usize) -> (r: String)
    ensures
        r@ == hex(n as nat, width as nat),
{
    let mut s = String::new();
    push_hex(&mut s, n, width);
    proof {
        assert(s@ =~= hex(n as nat, width as nat));
    }
    s
}

// --- Lists of texts --------------------------------------------------------------

/// Whether `t` is among the texts.
pub fn has_text(v: &[String], t: &str) -> (r: bool)
    ensures
        r == texts(v@).contains(t@),
{
    let want = owned(t);
    let mut i: usize = 0;
    while i < v.len()
        invariant
            i <= v@.len(),
            want@ == t@,
            forall|j: int| 0 <= j < i ==> (#[trigger] v@[j])@ != t@,
        decreases v@.len() - i,
    {
        if v[i] == want {
            proof {
                assert(texts(v@)[i as int] == t@);
            }
            return true;
        }
        i = i + 1;
    }
    proof {
        if texts(v@).contains(t@) {
            let j = choose|j: int| 0 <= j < texts(v@).len() && texts(v@)[j] == t@;
            assert(v@[j]@ == t@);
        }
    }
    false
}

/// Whether two lists hold the same texts in the same order.
pub fn same_texts(a: &[String], b: &[String]) -> (r: bool)
    ensures
        r == (texts(a@) == texts(b@)),
{
    if a.len() != b.len() {
        proof {
            assert(texts(a@).len() != texts(b@).len());
        }
        return false;
    }
    let mut i: usize = 0;
    while i < a.len()
        invariant
            i <= a@.len(),
            a@.len() == b@.len(),
            forall|j: int| 0 <= j < i ==> (#[trigger] a@[j])@ == b@[j]@,
        decreases a@.len() - i,
    {
        if a[i] != b[i] {
            proof {
                assert(texts(a@)[i as int] != texts(b@)[i as int]);
            }
            return false;
        }
        i = i + 1;
    }
    proof {
        assert(texts(a@) =~= texts(b@));
    }
    true
}

/// A copy of a list of texts.
pub fn copy_strings(v: &[String]) -> (r: Vec<String>)
    ensures
        r@ == v@,
{
    let mut out: Vec<String> = Vec::new();
    let mut i: usize = 0;
    while i < v.len()
        invariant
            i <= v@.len(),
            out@ == v@.take(i as int),
        decreases v@.len() - i,
    {
        out.push(v[i].clone());
        proof {
            assert(out@ =~= v@.take(i + 1));
        }
        i = i + 1;
    }
    proof {
        assert(out@ =~= v@);
    }
    out
}

// --- Replacing texts -------------------------------------------------------------

/// `str::replace`: every `pat`, from the left, replaced by `with`. Nothing happens for an
/// empty `pat`.
pub open spec fn replaced_text(s: Seq<char>, pat: Seq<char>, with: Seq<char>) -> Seq<char>
    decreases s.len(),
{
    match find(s, pat) {
        Some(i) => if pat.len() == 0 || i < 0 || i + pat.len() > s.len() {
            s
        } else {
            s.take(i) + with + replaced_text(s.skip(i + pat.len()), pat, with)
        },
        None => s,
    }
}

proof fn lemma_occurs_skip(s: Seq<char>, pat: Seq<char>, n: int, i: int)
    requires
        0 <= n <= s.len(),
        0 <= i,
    ensures
        occurs_at(s.skip(n), pat, i) == occurs_at(s, pat, n + i),
{
    if i + pat.len() <= s.skip(n).len() {
        assert(s.skip(n).subrange(i, i + pat.len()) =~= s.subrange(n + i, n + i + pat.len()));
    }
}

proof fn lemma_find_skip(s: Seq<char>, pat: Seq<char>, n: int, i: int)
    requires
        0 <= n <= s.len(),
        0 <= i,
    ensures
        match find_from(s.skip(n), pat, i) {
            Some(k) => find_from(s, pat, n + i) == Some(n + k),
            None => find_from(s, pat, n + i) is None,
        },
    decreases s.len() + 1 - i,
{
    lemma_occurs_skip(s, pat, n, i);
    if i + pat.len() <= s.skip(n).len() && !occurs_at(s.skip(n), pat, i) {
        lemma_find_skip(s, pat, n, i + 1);
    }
}

/// `str::replace`, for a `pat` that is not empty.
pub fn replace_text(s: &str, pat: &str, with: &str) -> (r: String)
    requires
        pat@.len() > 0,
    ensures
        r@ == replaced_text(s@, pat@, with@),
{
    let a = chars_of(s);
    let p = chars_of(pat);
    let mut out = String::new();
    let mut from: usize = 0;
    proof {
        assert(a@.skip(0) =~= a@);
        assert(out@ + replaced_text(a@.skip(0), pat@, with@) =~= replaced_text(s@, pat@, with@));
        assert(a@.len() == a.len());
    }
    loop
        invariant_except_break
            from <= a@.len(),
            a@.len() <= usize::MAX,
            a@ == s@,
            p@ == pat@,
            pat@.len() > 0,
            out@ + replaced_text(a@.skip(from as int), pat@, with@) == replaced_text(s@, pat@, with@),
        ensures
            out@ == replaced_text(s@, pat@, with@),
        decreases a@.len() - from,
    {
        let f = find_at(&a, &p, from);
        proof {
            lemma_find_skip(a@, pat@, from as int, 0);
        }
        match f {
            Some(i) => {
                let ghost was = out@;
                let ghost rest = a@.skip(from as int);
                let piece = string_of(slice_subrange(&a, from, i));
                push_text(&mut out, &piece);
                push_text(&mut out, with);
                proof {
                    assert(rest.take(i - from) =~= a@.subrange(from as int, i as int));
                    assert(rest.skip(i - from + pat@.len()) =~= a@.skip(i + pat@.len()));
                    assert(out@ + replaced_text(a@.skip(i + pat@.len()), pat@, with@) =~= was + (rest.take(i - from) + with@
                        + replaced_text(a@.skip(i + pat@.len()), pat@, with@)));
                }
                from = i + p.len();
            },
            None => {
                let ghost was = out@;
                let piece = string_of(slice_subrange(&a, from, a.len()));
                push_text(&mut out, &piece);
                proof {
                    assert(a@.subrange(from as int, a@.len() as int) =~= a@.skip(from as int));
                }
                break;
            },
        }
    }
    out
}

proof fn lemma_trim_start(a: Seq<char>, rest: Seq<char>)
    requires
        forall|i: int| 0 <= i < a.len() ==> white(#[trigger] a[i]),
        rest.len() > 0 ==> !white(rest[0]),
    ensures
        trim_start(a + rest) == rest,
    decreases a.len(),
{
    if a.len() > 0 {
        let t = a.drop_first();
        assert forall|i: int| 0 <= i < t.len() implies white(#[trigger] t[i]) by {
            assert(t[i] == a[i + 1]);
        }
        lemma_trim_start(t, rest);
        assert((a + rest)[0] == a[0]);
        assert((a + rest).drop_first() =~= t + rest);
    } else {
        assert(a + rest =~= rest);
    }
}

proof fn lemma_trim_end(rest: Seq<char>, b: Seq<char>)
    requires
        forall|i: int| 0 <= i < b.len() ==> white(#[trigger] b[i]),
        rest.len() > 0 ==> !white(rest.last()),
    ensures
        trim_end(rest + b) == rest,
    decreases b.len(),
{
    if b.len() > 0 {
        let t = b.drop_last();
        assert forall|i: int| 0 <= i < t.len() implies white(#[trigger] t[i]) by {
            assert(t[i] == b[i]);
        }
        lemma_trim_end(rest, t);
        assert((rest + b).last() == b[b.len() - 1]);
        assert((rest + b).drop_last() =~= rest + t);
    } else {
        assert(rest + b =~= rest);
    }
}

/// White space is taken off both ends, and off no other place.
pub proof fn law_white_space_is_taken_off_the_ends(a: Seq<char>, core: Seq<char>, b: Seq<char>)
    requires
        forall|i: int| 0 <= i < a.len() ==> white(#[trigger] a[i]),
        forall|i: int| 0 <= i < b.len() ==> white(#[trigger] b[i]),
        core.len() > 0,
        !white(core[0]),
        !white(core.last()),
    ensures
        trim(a + core + b) == core,
{
    assert(a + core + b =~= a + (core + b));
    assert((core + b)[0] == core[0]);
    lemma_trim_start(a, core + b);
    lemma_trim_end(core, b);
}

proof fn lemma_first_at(a: Seq<char>, c: char, rest: Seq<char>)
    requires
        !a.contains(c),
    ensures
        index_or_len(a + seq![c] + rest, c) == a.len(),
        index_or_len(a, c) == a.len(),
{
    let s = a + seq![c] + rest;
    lemma_index_or_len(s, c);
    lemma_index_or_len(a, c);
    assert(s[a.len() as int] == c);
    let i = index_or_len(s, c);
    if i < a.len() {
        assert(s[i] == a[i]);
        assert(a.contains(a[i]));
    }
    let j = index_or_len(a, c);
    if j < a.len() {
        assert(a.contains(a[j]));
    }
}

/// Lines end at line feeds, with or without a carriage return before them; what is behind the last
/// one is a line too, where it is anything.
pub proof fn law_lines_end_at_line_feeds(a: Seq<char>, rest: Seq<char>)
    requires
        !a.contains('\n'),
        a.len() > 0 ==> a.last() != '\r',
    ensures
        lines(a + seq!['\n'] + rest) == seq![a] + lines(rest),
        lines(a + seq!['\r'] + seq!['\n'] + rest) == seq![a] + lines(rest),
        a.len() > 0 ==> lines(a) == seq![a],
        lines(Seq::empty()) == Seq::<Seq<char>>::empty(),
{
    lemma_first_at(a, '\n', rest);
    let s = a + seq!['\n'] + rest;
    assert(s.take(a.len() as int) =~= a);
    assert(s.skip(a.len() as int + 1) =~= rest);
    let r = a + seq!['\r'];
    assert(!r.contains('\n')) by {
        if r.contains('\n') {
            let i = choose|i: int| 0 <= i < r.len() && r[i] == '\n';
            assert(i < a.len());
            assert(a[i] == '\n');
        }
    }
    lemma_first_at(r, '\n', rest);
    let t = r + seq!['\n'] + rest;
    assert(t.take(r.len() as int) =~= r);
    assert(t.skip(r.len() as int + 1) =~= rest);
    assert(r.drop_last() =~= a);
    assert(r.last() == '\r');
}

/// A text is split at each mark, and a text without it stays whole.
pub proof fn law_texts_are_split_at_their_marks(a: Seq<char>, c: char, rest: Seq<char>)
    requires
        !a.contains(c),
    ensures
        split(a + seq![c] + rest, c) == seq![a] + split(rest, c),
        split(a, c) == seq![a],
        before(a + seq![c] + rest, c) == a,
        before(a, c) == a,
{
    lemma_first_at(a, c, rest);
    let s = a + seq![c] + rest;
    assert(s.take(a.len() as int) =~= a);
    assert(s.skip(a.len() as int + 1) =~= rest);
    assert(a.take(a.len() as int) =~= a);
}

} // verus!
