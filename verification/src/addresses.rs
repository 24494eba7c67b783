//! What the URLs of live streams tell: the host and the stream that they were made for.
use vstd::prelude::*;
use crate::blacklist::{blamed, host_root, live_id, second_piece, streams_of};
use crate::proxy::{number_behind, source_stream_id};
use crate::text::{before, decimal, digit, find, index_or_len, lemma_decimal_round_trip, lemma_find_from, lemma_index_or_len};
use crate::text::{occurs_at, split, trim_end_char};
use crate::xtream::XtreamClient;

verus! {

/// The text has no slash.
pub open spec fn no_slash(s: Seq<char>) -> bool {
    forall|i: int| 0 <= i < s.len() ==> s[i] != '/'
}

proof fn lemma_split_last(s: Seq<char>)
    requires
        no_slash(s),
    ensures
        split(s, '/') == seq![s],
{
    lemma_index_or_len(s, '/');
}

proof fn lemma_split_first(a: Seq<char>, b: Seq<char>)
    requires
        no_slash(a),
    ensures
        split(a + seq!['/'] + b, '/') == seq![a] + split(b, '/'),
{
    let s = a + seq!['/'] + b;
    lemma_index_or_len(s, '/');
    let i = index_or_len(s, '/');
    assert(s[a.len() as int] == '/');
    if i < a.len() {
        assert(s[i] == a[i]);
    }
    assert(s.take(i) =~= a);
    assert(s.skip(i + 1) =~= b);
}

proof fn lemma_second_piece(pre: Seq<char>, mark: Seq<char>, rest: Seq<char>)
    requires
        forall|j: int| 0 <= j < pre.len() ==> !occurs_at(pre + mark + rest, mark, j),
        forall|j: int| !occurs_at(rest, mark, j),
    ensures
        second_piece(pre + mark + rest, mark) == Some(rest),
{
    let s = pre + mark + rest;
    let n = pre.len() as int;
    lemma_find_from(s, mark, 0);
    assert(s.subrange(n, n + mark.len()) =~= mark);
    assert(occurs_at(s, mark, n));
    assert(find(s, mark) == Some(n));
    assert(s.skip(n + mark.len()) =~= rest);
    lemma_find_from(rest, mark, 0);
}

/// What a host's URL begins with.
pub open spec fn root(scheme: Seq<char>, name: Seq<char>) -> Seq<char> {
    scheme + "://"@ + name
}

/// A scheme and a host that have their usual form.
pub open spec fn usual(scheme: Seq<char>, name: Seq<char>) -> bool {
    &&& no_slash(scheme)
    &&& forall|i: int| 0 <= i < scheme.len() ==> scheme[i] != ':'
    &&& no_slash(name)
    &&& name.len() > 0
    &&& name != "live"@
}

/// A live URL, part by part.
pub open spec fn spelled_out(host: Seq<char>, user: Seq<char>, pass: Seq<char>, id: nat) -> Seq<char> {
    host + "/live/"@ + (user + seq!['/'] + (pass + seq!['/'] + (decimal(id) + ".m3u8"@)))
}

proof fn lemma_before_live(scheme: Seq<char>, name: Seq<char>, tail: Seq<char>, j: int)
    requires
        usual(scheme, name),
        0 <= j < root(scheme, name).len(),
    ensures
        !occurs_at(root(scheme, name) + "/live/"@ + tail, "/live/"@, j),
{
    reveal_strlit("/live/");
    reveal_strlit("://");
    reveal_strlit("live");
    let mark = "/live/"@;
    let pre = root(scheme, name);
    let s = pre + mark + tail;
    let k = scheme.len() as int;
    if occurs_at(s, mark, j) {
        let sub = s.subrange(j, j + 6);
        assert(sub[0] == '/' && sub[1] == 'l' && sub[2] == 'i' && sub[3] == 'v' && sub[4] == 'e' && sub[5] == '/');
        assert(s[j] == '/' && s[j + 1] == 'l' && s[j + 2] == 'i' && s[j + 3] == 'v' && s[j + 4] == 'e' && s[j + 5] == '/');
        if j < k {
            assert(s[j] == scheme[j]);
        } else if j < k + 3 {
            assert(s[k] == ':' && s[k + 1] == '/' && s[k + 2] == '/');
            assert(j == k + 2);
            let n = name.len() as int;
            assert(forall|i: int| 0 <= i < n ==> s[k + 3 + i] == name[i]);
            assert(s[k + 3 + n] == mark[0]);
            if n > 4 {
                assert(s[k + 3 + 4] == name[4]);
            } else if n < 4 {
                assert(s[j + 1 + n] == '/');
            } else {
                assert(name[0] == s[j + 1] && name[1] == s[j + 2] && name[2] == s[j + 3] && name[3] == s[j + 4]);
                assert(name =~= "live"@);
            }
        } else {
            assert(s[j] == name[j - k - 3]);
        }
    }
}

proof fn lemma_digits_only(id: nat)
    ensures
        no_slash(decimal(id) + ".m3u8"@),
        before(decimal(id) + ".m3u8"@, '.') == decimal(id),
{
    reveal_strlit(".m3u8");
    lemma_decimal_round_trip(id);
    let d = decimal(id);
    let s = d + ".m3u8"@;
    assert forall|i: int| 0 <= i < s.len() implies s[i] != '/' by {
        if i < d.len() {
            assert(digit(d[i]));
        } else {
            assert(s[i] == ".m3u8"@[i - d.len()]);
        }
    }
    lemma_index_or_len(s, '.');
    let i = index_or_len(s, '.');
    assert(s[d.len() as int] == '.');
    if i < d.len() {
        assert(digit(d[i]));
    }
    assert(s.take(i) =~= d);
}

proof fn lemma_behind_live(user: Seq<char>, pass: Seq<char>, id: nat, j: int)
    requires
        no_slash(user),
        no_slash(pass),
        pass != "live"@,
    ensures
        !occurs_at(user + seq!['/'] + (pass + seq!['/'] + (decimal(id) + ".m3u8"@)), "/live/"@, j),
{
    reveal_strlit("/live/");
    reveal_strlit("live");
    lemma_digits_only(id);
    let mark = "/live/"@;
    let file = decimal(id) + ".m3u8"@;
    let s = user + seq!['/'] + (pass + seq!['/'] + file);
    let (m, n) = (user.len() as int, pass.len() as int);
    if occurs_at(s, mark, j) {
        let sub = s.subrange(j, j + 6);
        assert(sub[0] == '/' && sub[1] == 'l' && sub[2] == 'i' && sub[3] == 'v' && sub[4] == 'e' && sub[5] == '/');
        assert(s[j] == '/' && s[j + 1] == 'l' && s[j + 2] == 'i' && s[j + 3] == 'v' && s[j + 4] == 'e' && s[j + 5] == '/');
        if j < m {
            assert(s[j] == user[j]);
        } else if j == m {
            if n > 4 {
                assert(s[j + 5] == pass[4]);
            } else if n < 4 {
                assert(s[m + 1 + n] == '/');
            } else {
                assert(pass[0] == s[j + 1] && pass[1] == s[j + 2] && pass[2] == s[j + 3] && pass[3] == s[j + 4]);
                assert(pass =~= "live"@);
            }
        } else if j < m + 1 + n {
            assert(s[j] == pass[j - m - 1]);
        } else {
            assert(s[j + 5] == file[j + 5 - m - n - 2]);
        }
    }
}

/// The URL of a stream on a host tells the host and the stream again: failures are laid to them,
/// and successes counted for them.
pub proof fn law_live_urls_name_host_and_stream(client: XtreamClient, scheme: Seq<char>, name: Seq<char>, id: u64)
    requires
        usual(scheme, name),
        no_slash(client.username@),
        no_slash(client.password@),
        client.password@ != "live"@,
    ensures
        ({
            let url = client.live_url(root(scheme, name), id as nat, "m3u8"@);
            &&& host_root(url) == Some(root(scheme, name))
            &&& live_id(url) == Some(decimal(id as nat))
            &&& source_stream_id(url) == Some(id)
        }),
{
    reveal_strlit("/live/");
    reveal_strlit("://");
    reveal_strlit("/");
    reveal_strlit(".");
    reveal_strlit("m3u8");
    reveal_strlit(".m3u8");
    let host = root(scheme, name);
    let (user, pass) = (client.username@, client.password@);
    let url = client.live_url(host, id as nat, "m3u8"@);
    let file = decimal(id as nat) + ".m3u8"@;
    let rest = user + seq!['/'] + (pass + seq!['/'] + file);
    assert(host.last() == name.last());
    assert(trim_end_char(host, '/') == host);
    assert(url =~= host + "/live/"@ + rest);
    assert forall|j: int| 0 <= j < host.len() implies !occurs_at(host + "/live/"@ + rest, "/live/"@, j) by {
        lemma_before_live(scheme, name, rest, j);
    }
    assert forall|j: int| !occurs_at(rest, "/live/"@, j) by {
        lemma_behind_live(user, pass, id as nat, j);
    }
    lemma_second_piece(host, "/live/"@, rest);
    lemma_digits_only(id as nat);
    lemma_split_first(user, pass + seq!['/'] + file);
    lemma_split_first(pass, file);
    lemma_split_last(file);
    let parts = split(rest, '/');
    assert(parts =~= seq![user, pass, file]);
    lemma_decimal_round_trip(id as nat);
    assert(number_behind(url, "/live/"@, 2) == Some(id));
    let k = scheme.len() as int;
    lemma_find_from(url, "://"@, 0);
    assert(url.subrange(k, k + 3) =~= "://"@);
    assert(occurs_at(url, "://"@, k));
    let i = find(url, "://"@)->0;
    if i < k {
        assert(url.subrange(i, i + 3)[0] == url[i] && url[i] == scheme[i]);
        assert("://"@[0] == ':');
    }
    let tail = url.skip(k + 3);
    lemma_index_or_len(tail, '/');
    let e = index_or_len(tail, '/');
    assert(tail[name.len() as int] == '/');
    if e < name.len() {
        assert(tail[e] == name[e]);
    }
    assert(url.take(k + 3 + e) =~= host);
}

/// A failure that is the server's is laid to the host and the stream that the URL was made for, and
/// to no other.
pub proof fn law_failures_are_laid_to_host_and_stream(
    client: XtreamClient,
    scheme: Seq<char>,
    name: Seq<char>,
    id: u64,
    hosts: Map<Seq<char>, Map<Seq<char>, i128>>,
    now: i128,
)
    requires
        usual(scheme, name),
        no_slash(client.username@),
        no_slash(client.password@),
        client.password@ != "live"@,
    ensures
        ({
            let host = root(scheme, name);
            let after = blamed(hosts, client.live_url(host, id as nat, "m3u8"@), now);
            &&& streams_of(after, host) == streams_of(hosts, host).insert(decimal(id as nat), now)
            &&& forall|other: Seq<char>| other != host ==> #[trigger] streams_of(after, other) == streams_of(hosts, other)
        }),
{
    law_live_urls_name_host_and_stream(client, scheme, name, id);
}

} // verus!
