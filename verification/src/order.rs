//! Lexicographic order and a stable sort.
use vstd::prelude::*;
use crate::text::{chars_of, texts};

verus! {

/// `a` comes before `b`: at the first difference it is smaller, or it ends there.
pub open spec fn lex_lt(a: Seq<int>, b: Seq<int>) -> bool
    decreases a.len(),
{
    if b.len() == 0 {
        false
    } else if a.len() == 0 {
        true
    } else {
        a[0] < b[0] || (a[0] == b[0] && lex_lt(a.skip(1), b.skip(1)))
    }
}

pub proof fn lemma_lex_irreflexive(a: Seq<int>)
    ensures
        !lex_lt(a, a),
    decreases a.len(),
{
    if a.len() > 0 {
        lemma_lex_irreflexive(a.skip(1));
    }
}

pub proof fn lemma_lex_transitive(a: Seq<int>, b: Seq<int>, c: Seq<int>)
    requires
        lex_lt(a, b),
        lex_lt(b, c),
    ensures
        lex_lt(a, c),
    decreases a.len(),
{
    if a.len() > 0 && a[0] == b[0] && b[0] == c[0] {
        lemma_lex_transitive(a.skip(1), b.skip(1), c.skip(1));
    }
}

pub proof fn lemma_lex_total(a: Seq<int>, b: Seq<int>)
    ensures
        lex_lt(a, b) || lex_lt(b, a) || a == b,
    decreases a.len(),
{
    if a.len() > 0 && b.len() > 0 && a[0] == b[0] {
        lemma_lex_total(a.skip(1), b.skip(1));
        if a.skip(1) == b.skip(1) {
            assert forall|i: int| 0 <= i < a.len() implies a[i] == b[i] by {
                if i > 0 {
                    assert(a[i] == a.skip(1)[i - 1]);
                    assert(b[i] == b.skip(1)[i - 1]);
                }
            }
            assert(a.len() == a.skip(1).len() + 1);
            assert(a =~= b);
        }
    } else if a.len() == 0 && b.len() == 0 {
        assert(a =~= b);
    }
}

/// If neither `b` precedes `a` nor `c` precedes `b`, then `c` does not precede `a`.
pub proof fn lemma_lex_le_transitive(a: Seq<int>, b: Seq<int>, c: Seq<int>)
    requires
        !lex_lt(b, a),
        !lex_lt(c, b),
    ensures
        !lex_lt(c, a),
{
    if lex_lt(c, a) {
        lemma_lex_total(a, b);
        if lex_lt(a, b) {
            lemma_lex_transitive(c, a, b);
        }
    }
}

/// The codes of a text's characters: texts are ordered as these sequences are.
pub open spec fn codes(s: Seq<char>) -> Seq<int> {
    Seq::new(s.len(), |i: int| s[i] as int)
}

/// Whether the text `a` comes before the text `b`.
pub fn text_before(a: &[char], b: &[char]) -> (r: bool)
    ensures
        r == lex_lt(codes(a@), codes(b@)),
{
    let ghost ca = codes(a@);
    let ghost cb = codes(b@);
    let mut i: usize = 0;
    proof {
        assert(ca.skip(0) =~= ca && cb.skip(0) =~= cb);
    }
    while i < a.len() && i < b.len() && a[i] == b[i]
        invariant
            i <= a@.len(),
            i <= b@.len(),
            ca == codes(a@),
            cb == codes(b@),
            lex_lt(ca, cb) == lex_lt(ca.skip(i as int), cb.skip(i as int)),
        decreases a@.len() - i,
    {
        proof {
            assert(ca.skip(i as int).skip(1) =~= ca.skip(i + 1));
            assert(cb.skip(i as int).skip(1) =~= cb.skip(i + 1));
        }
        i = i + 1;
    }
    if i >= b.len() {
        false
    } else if i >= a.len() {
        true
    } else {
        a[i] < b[i]
    }
}

/// What a sort goes by.
pub trait Ranked: Sized {
    /// The key; lower keys come first.
    spec fn rank(&self) -> Seq<int>;

    fn precedes(&self, other: &Self) -> (r: bool)
        ensures
            r == lex_lt(self.rank(), other.rank()),
    ;
}

/// `s` with `x` put behind the last item that does not come after it.
pub open spec fn insert_by<T>(s: Seq<T>, x: T, rank: spec_fn(T) -> Seq<int>) -> Seq<T>
    decreases s.len(),
{
    if s.len() > 0 && lex_lt(rank(x), rank(s.last())) {
        insert_by(s.drop_last(), x, rank).push(s.last())
    } else {
        s.push(x)
    }
}

/// The items of `s` by ascending key; items with equal keys stay in their order.
pub open spec fn ranked_by<T>(s: Seq<T>, rank: spec_fn(T) -> Seq<int>) -> Seq<T>
    decreases s.len(),
{
    if s.len() == 0 {
        s
    } else {
        insert_by(ranked_by(s.drop_last(), rank), s.last(), rank)
    }
}

/// The key of an item.
pub open spec fn own_rank<T: Ranked>() -> spec_fn(T) -> Seq<int> {
    |t: T| t.rank()
}

/// No item comes before one that stands ahead of it.
pub open spec fn is_ranked<T>(s: Seq<T>, rank: spec_fn(T) -> Seq<int>) -> bool {
    forall|i: int, j: int| #![trigger s[i], s[j]] 0 <= i < j < s.len() ==> !lex_lt(rank(s[j]), rank(s[i]))
}

proof fn lemma_insert_by<T>(s: Seq<T>, x: T, rank: spec_fn(T) -> Seq<int>)
    requires
        is_ranked(s, rank),
    ensures
        is_ranked(insert_by(s, x, rank), rank),
        insert_by(s, x, rank).to_multiset() == s.to_multiset().insert(x),
        insert_by(s, x, rank).len() == s.len() + 1,
    decreases s.len(),
{
    broadcast use vstd::seq_lib::group_to_multiset_ensures;

    let r = insert_by(s, x, rank);
    if s.len() > 0 && lex_lt(rank(x), rank(s.last())) {
        let t = s.drop_last();
        assert(is_ranked(t, rank)) by {
            assert forall|i: int, j: int| #![trigger t[i], t[j]] 0 <= i < j < t.len() implies !lex_lt(
                rank(t[j]),
                rank(t[i]),
            ) by {
                assert(t[j] == s[j] && t[i] == s[i]);
            }
        }
        lemma_insert_by(t, x, rank);
        let u = insert_by(t, x, rank);
        assert(s =~= t.push(s.last()));
        assert(r.to_multiset() =~= s.to_multiset().insert(x));
        assert forall|i: int, j: int| #![trigger r[i], r[j]] 0 <= i < j < r.len() implies !lex_lt(rank(r[j]), rank(r[i])) by {
            if j < u.len() {
                assert(r[j] == u[j] && r[i] == u[i]);
            } else {
                assert(r[j] == s.last() && r[i] == u[i]);
                assert(u.to_multiset().contains(u[i]));
                if u[i] == x {
                    if lex_lt(rank(s.last()), rank(x)) {
                        lemma_lex_transitive(rank(x), rank(s.last()), rank(x));
                        lemma_lex_irreflexive(rank(x));
                    }
                } else {
                    assert(t.to_multiset().contains(u[i]));
                    let k = choose|k: int| 0 <= k < t.len() && t[k] == u[i];
                    assert(s[k] == u[i]);
                    assert(!lex_lt(rank(s[s.len() - 1]), rank(s[k])));
                }
            }
        }
    } else {
        assert(r =~= s.push(x));
        assert forall|i: int, j: int| #![trigger r[i], r[j]] 0 <= i < j < r.len() implies !lex_lt(rank(r[j]), rank(r[i])) by {
            if j < s.len() {
                assert(r[j] == s[j] && r[i] == s[i]);
            } else {
                if i < s.len() - 1 {
                    assert(!lex_lt(rank(s[s.len() - 1]), rank(s[i])));
                    lemma_lex_le_transitive(rank(s[i]), rank(s.last()), rank(x));
                }
                assert(r[i] == s[i]);
            }
        }
    }
}

/// A sort keeps the items and puts them in order.
pub proof fn law_ranked<T>(s: Seq<T>, rank: spec_fn(T) -> Seq<int>)
    ensures
        is_ranked(ranked_by(s, rank), rank),
        ranked_by(s, rank).to_multiset() == s.to_multiset(),
        ranked_by(s, rank).len() == s.len(),
    decreases s.len(),
{
    broadcast use vstd::seq_lib::group_to_multiset_ensures;

    if s.len() > 0 {
        law_ranked(s.drop_last(), rank);
        lemma_insert_by(ranked_by(s.drop_last(), rank), s.last(), rank);
        assert(s =~= s.drop_last().push(s.last()));
    }
}

/// The items of `s` that have the key `k`.
pub open spec fn of_rank<T>(s: Seq<T>, rank: spec_fn(T) -> Seq<int>, k: Seq<int>) -> Seq<T>
    decreases s.len(),
{
    if s.len() == 0 {
        s
    } else if rank(s.last()) == k {
        of_rank(s.drop_last(), rank, k).push(s.last())
    } else {
        of_rank(s.drop_last(), rank, k)
    }
}

proof fn lemma_insert_by_of_rank<T>(s: Seq<T>, x: T, rank: spec_fn(T) -> Seq<int>, k: Seq<int>)
    ensures
        of_rank(insert_by(s, x, rank), rank, k) == of_rank(s.push(x), rank, k),
    decreases s.len(),
{
    reveal_with_fuel(of_rank, 3);
    assert(s.push(x).drop_last() =~= s);
    if s.len() > 0 && lex_lt(rank(x), rank(s.last())) {
        let t = s.drop_last();
        let u = insert_by(t, x, rank);
        lemma_insert_by_of_rank(t, x, rank, k);
        lemma_lex_irreflexive(rank(x));
        assert(t.push(x).drop_last() =~= t);
        assert(u.push(s.last()).drop_last() =~= u);
    }
}

/// A sort is stable: items with the same key stay in their order.
pub proof fn law_ranked_is_stable<T>(s: Seq<T>, rank: spec_fn(T) -> Seq<int>, k: Seq<int>)
    ensures
        of_rank(ranked_by(s, rank), rank, k) == of_rank(s, rank, k),
    decreases s.len(),
{
    if s.len() > 0 {
        let t = ranked_by(s.drop_last(), rank);
        law_ranked_is_stable(s.drop_last(), rank, k);
        lemma_insert_by_of_rank(t, s.last(), rank, k);
        assert(t.push(s.last()).drop_last() =~= t);
    }
}

/// A sort neither adds nor drops items.
pub proof fn lemma_ranked_contains<T>(s: Seq<T>, rank: spec_fn(T) -> Seq<int>, x: T)
    ensures
        ranked_by(s, rank).contains(x) == s.contains(x),
{
    broadcast use vstd::seq_lib::group_to_multiset_ensures;

    law_ranked(s, rank);
    assert(ranked_by(s, rank).to_multiset().contains(x) == s.to_multiset().contains(x));
}

/// A sort does not double items.
pub proof fn lemma_ranked_no_duplicates<T>(s: Seq<T>, rank: spec_fn(T) -> Seq<int>)
    requires
        s.no_duplicates(),
    ensures
        ranked_by(s, rank).no_duplicates(),
{
    broadcast use vstd::seq_lib::group_to_multiset_ensures;

    law_ranked(s, rank);
    let r = ranked_by(s, rank);
    s.lemma_multiset_has_no_duplicates();
    assert forall|x: T| r.to_multiset().contains(x) implies r.to_multiset().count(x) == 1 by {}
    r.lemma_multiset_has_no_duplicates_conv();
}

/// Items that differ in something still do after a sort.
pub proof fn lemma_ranked_distinct<T, V>(s: Seq<T>, rank: spec_fn(T) -> Seq<int>, f: spec_fn(T) -> V)
    requires
        forall|i: int, j: int|
            #![trigger s[i], s[j]]
            0 <= i < s.len() && 0 <= j < s.len() && i != j ==> f(s[i]) != f(s[j]),
    ensures
        forall|i: int, j: int|
            #![trigger ranked_by(s, rank)[i], ranked_by(s, rank)[j]]
            0 <= i < s.len() && 0 <= j < s.len() && i != j ==> f(ranked_by(s, rank)[i]) != f(ranked_by(s, rank)[j]),
{
    let r = ranked_by(s, rank);
    law_ranked(s, rank);
    assert(s.no_duplicates());
    lemma_ranked_no_duplicates(s, rank);
    assert forall|i: int, j: int| #![trigger r[i], r[j]] 0 <= i < s.len() && 0 <= j < s.len() && i != j implies f(r[i]) != f(
        r[j],
    ) by {
        lemma_ranked_contains(s, rank, r[i]);
        lemma_ranked_contains(s, rank, r[j]);
        assert(r.contains(r[i]) && r.contains(r[j]));
        let p = choose|p: int| 0 <= p < s.len() && s[p] == r[i];
        let q = choose|q: int| 0 <= q < s.len() && s[q] == r[j];
        assert(r[i] != r[j]);
        assert(f(s[p]) != f(s[q]));
    }
}

proof fn lemma_insert_by_map<T, V>(
    s: Seq<T>,
    x: T,
    f: spec_fn(T) -> V,
    rank: spec_fn(T) -> Seq<int>,
    mapped: spec_fn(V) -> Seq<int>,
)
    requires
        forall|t: T| #[trigger] rank(t) == mapped(f(t)),
    ensures
        insert_by(s, x, rank).map_values(f) == insert_by(s.map_values(f), f(x), mapped),
    decreases s.len(),
{
    let m = s.map_values(f);
    assert(rank(x) == mapped(f(x)));
    if s.len() > 0 {
        assert(m.last() == f(s.last()));
        assert(rank(s.last()) == mapped(f(s.last())));
        assert(m.drop_last() =~= s.drop_last().map_values(f));
        lemma_insert_by_map(s.drop_last(), x, f, rank, mapped);
    }
    assert(insert_by(s, x, rank).map_values(f) =~= insert_by(m, f(x), mapped));
}

/// Sorting and then viewing the items is viewing and then sorting them, where both go by
/// the same key.
pub proof fn lemma_ranked_by_map<T, V>(
    s: Seq<T>,
    f: spec_fn(T) -> V,
    rank: spec_fn(T) -> Seq<int>,
    mapped: spec_fn(V) -> Seq<int>,
)
    requires
        forall|t: T| #[trigger] rank(t) == mapped(f(t)),
    ensures
        ranked_by(s, rank).map_values(f) == ranked_by(s.map_values(f), mapped),
    decreases s.len(),
{
    let m = s.map_values(f);
    if s.len() > 0 {
        lemma_ranked_by_map(s.drop_last(), f, rank, mapped);
        lemma_insert_by_map(ranked_by(s.drop_last(), rank), s.last(), f, rank, mapped);
        assert(m.drop_last() =~= s.drop_last().map_values(f));
        assert(m.last() == f(s.last()));
    } else {
        assert(ranked_by(s, rank).map_values(f) =~= ranked_by(m, mapped));
    }
}

proof fn lemma_insert_by_map_on<T, V>(
    s: Seq<T>,
    x: T,
    f: spec_fn(T) -> V,
    rank: spec_fn(T) -> Seq<int>,
    mapped: spec_fn(V) -> Seq<int>,
)
    requires
        rank(x) == mapped(f(x)),
        forall|i: int| 0 <= i < s.len() ==> rank(#[trigger] s[i]) == mapped(f(s[i])),
    ensures
        insert_by(s, x, rank).map_values(f) == insert_by(s.map_values(f), f(x), mapped),
    decreases s.len(),
{
    let m = s.map_values(f);
    if s.len() > 0 {
        let t = s.drop_last();
        assert(m.last() == f(s.last()));
        assert(rank(s[s.len() - 1]) == mapped(f(s[s.len() - 1])));
        assert(m.drop_last() =~= t.map_values(f));
        assert forall|i: int| 0 <= i < t.len() implies rank(#[trigger] t[i]) == mapped(f(t[i])) by {
            assert(t[i] == s[i]);
        }
        lemma_insert_by_map_on(t, x, f, rank, mapped);
    }
    assert(insert_by(s, x, rank).map_values(f) =~= insert_by(m, f(x), mapped));
}

/// Sorting and then viewing the items is viewing and then sorting them, where both go by
/// the same key for all of the items.
pub proof fn lemma_ranked_by_map_on<T, V>(
    s: Seq<T>,
    f: spec_fn(T) -> V,
    rank: spec_fn(T) -> Seq<int>,
    mapped: spec_fn(V) -> Seq<int>,
)
    requires
        forall|i: int| 0 <= i < s.len() ==> rank(#[trigger] s[i]) == mapped(f(s[i])),
    ensures
        ranked_by(s, rank).map_values(f) == ranked_by(s.map_values(f), mapped),
    decreases s.len(),
{
    let m = s.map_values(f);
    if s.len() > 0 {
        let t = s.drop_last();
        assert forall|i: int| 0 <= i < t.len() implies rank(#[trigger] t[i]) == mapped(f(t[i])) by {
            assert(t[i] == s[i]);
        }
        lemma_ranked_by_map_on(t, f, rank, mapped);
        let r = ranked_by(t, rank);
        assert forall|i: int| 0 <= i < r.len() implies rank(#[trigger] r[i]) == mapped(f(r[i])) by {
            lemma_ranked_contains(t, rank, r[i]);
            assert(r.contains(r[i]));
            let k = choose|k: int| 0 <= k < t.len() && t[k] == r[i];
            assert(rank(t[k]) == mapped(f(t[k])));
        }
        assert(rank(s[s.len() - 1]) == mapped(f(s[s.len() - 1])));
        lemma_insert_by_map_on(r, s.last(), f, rank, mapped);
        assert(m.drop_last() =~= t.map_values(f));
        assert(m.last() == f(s.last()));
    } else {
        assert(ranked_by(s, rank).map_values(f) =~= ranked_by(m, mapped));
    }
}

fn insert_in_order<T: Ranked>(out: &mut Vec<T>, x: T)
    ensures
        final(out)@ == insert_by(old(out)@, x, own_rank()),
{
    let ghost all = out@;
    let mut j: usize = out.len();
    proof {
        assert(all.take(j as int) =~= all);
        assert(insert_by(all.take(j as int), x, own_rank()) + all.skip(j as int) =~= insert_by(all, x, own_rank()));
    }
    while j > 0 && x.precedes(&out[j - 1])
        invariant
            j <= all.len(),
            out@ == all,
            insert_by(all.take(j as int), x, own_rank()) + all.skip(j as int) == insert_by(all, x, own_rank()),
        decreases j,
    {
        proof {
            let a = all.take(j as int);
            assert(a.last() == all[j - 1]);
            assert(a.drop_last() =~= all.take(j - 1));
            assert(insert_by(all.take(j - 1), x, own_rank()) + all.skip(j - 1) =~= insert_by(a, x, own_rank()) + all.skip(j as int));
        }
        j = j - 1;
    }
    proof {
        let a = all.take(j as int);
        if j > 0 {
            assert(a.last() == all[j - 1]);
        }
        assert(insert_by(a, x, own_rank()) == a.push(x));
        assert(all.insert(j as int, x) =~= a.push(x) + all.skip(j as int));
    }
    out.insert(j, x);
}

/// Sorts by ascending key; items with equal keys stay in their order.
pub fn sort_ranked<T: Ranked>(v: Vec<T>) -> (r: Vec<T>)
    ensures
        r@ == ranked_by(v@, own_rank()),
{
    let mut out: Vec<T> = Vec::new();
    let ghost all = v@;
    for x in it: v
        invariant
            it.seq() == all,
            out@ == ranked_by(all.take(it.index()), own_rank()),
    {
        proof {
            let k = it.index();
            assert(all.take(k + 1).drop_last() =~= all.take(k));
            assert(all.take(k + 1).last() == all[k]);
        }
        insert_in_order(&mut out, x);
    }
    proof {
        assert(all.take(all.len() as int) =~= all);
    }
    out
}

impl Ranked for u64 {
    open spec fn rank(&self) -> Seq<int> {
        seq![*self as int]
    }

    fn precedes(&self, other: &Self) -> (r: bool) {
        proof {
            reveal_with_fuel(lex_lt, 2);
        }
        *self < *other
    }
}

impl Ranked for String {
    open spec fn rank(&self) -> Seq<int> {
        codes(self@)
    }

    fn precedes(&self, other: &Self) -> (r: bool) {
        text_before(&chars_of(self), &chars_of(other))
    }
}

/// Each text comes before those that stand behind it.
pub open spec fn ascending(s: Seq<Seq<char>>) -> bool {
    forall|i: int, j: int| #![trigger s[i], s[j]] 0 <= i < j < s.len() ==> lex_lt(codes(s[i]), codes(s[j]))
}

pub proof fn lemma_codes_injective(a: Seq<char>, b: Seq<char>)
    requires
        codes(a) == codes(b),
    ensures
        a == b,
{
    assert(a.len() == codes(a).len() && b.len() == codes(b).len());
    assert forall|i: int| 0 <= i < a.len() implies a[i] == b[i] by {
        assert(codes(a)[i] == a[i] as int);
        assert(codes(b)[i] == b[i] as int);
    }
    assert(a =~= b);
}

/// The texts once each, in ascending order.
pub fn sort_dedup(v: Vec<String>) -> (r: Vec<String>)
    ensures
        ascending(texts(r@)),
        forall|t: Seq<char>| #[trigger] texts(r@).contains(t) == texts(v@).contains(t),
{
    let ghost all = v@;
    let sorted = sort_ranked(v);
    proof {
        law_ranked(all, own_rank());
    }
    let ghost s = sorted@;
    let mut out: Vec<String> = Vec::new();
    for x in it: sorted
        invariant
            it.seq() == s,
            is_ranked(s, own_rank()),
            ascending(texts(out@)),
            it.index() > 0 ==> out@.len() > 0 && out@.last()@ == s[it.index() - 1]@,
            forall|t: Seq<char>| #[trigger] texts(out@).contains(t) == texts(s.take(it.index())).contains(t),
    {
        let ghost k = it.index();
        let ghost was = out@;
        proof {
            assert(s[k] == x);
            assert(texts(s.take(k + 1)) =~= texts(s.take(k)).push(x@));
            assert forall|t: Seq<char>| #[trigger] texts(s.take(k + 1)).contains(t) == (texts(s.take(k)).contains(t) || t == x@) by {
                let a = texts(s.take(k));
                let b = texts(s.take(k + 1));
                if a.contains(t) {
                    let i = choose|i: int| 0 <= i < a.len() && a[i] == t;
                    assert(b[i] == t);
                }
                assert(b[k] == x@);
                if b.contains(t) && t != x@ {
                    let i = choose|i: int| 0 <= i < b.len() && b[i] == t;
                    assert(a[i] == t);
                }
            }
        }
        let again = out.len() > 0 && out[out.len() - 1] == x;
        if again {
            proof {
                assert(texts(out@)[out@.len() - 1] == x@);
            }
        } else {
            out.push(x);
            proof {
                let a = texts(was);
                let b = texts(out@);
                assert(b =~= a.push(x@));
                if was.len() > 0 && k > 0 {
                    assert(!lex_lt(s[k].rank(), s[k - 1].rank()));
                    lemma_lex_total(codes(x@), codes(was.last()@));
                    if codes(x@) == codes(was.last()@) {
                        lemma_codes_injective(x@, was.last()@);
                    }
                    assert(lex_lt(codes(was.last()@), codes(x@)));
                }
                assert(k == 0 ==> was.len() == 0) by {
                    if k == 0 && was.len() > 0 {
                        assert(texts(was).contains(texts(was)[0]));
                        assert(texts(s.take(0)).len() == 0);
                    }
                }
                assert forall|i: int, j: int| #![trigger b[i], b[j]] 0 <= i < j < b.len() implies lex_lt(codes(b[i]), codes(b[j])) by {
                    if j < a.len() {
                        assert(b[i] == a[i] && b[j] == a[j]);
                    } else if i < a.len() - 1 {
                        assert(lex_lt(codes(a[i]), codes(a[a.len() - 1])));
                        lemma_lex_transitive(codes(a[i]), codes(a[a.len() - 1]), codes(x@));
                    }
                }
                assert forall|t: Seq<char>| #[trigger] b.contains(t) == texts(s.take(k + 1)).contains(t) by {
                    if a.contains(t) {
                        let i = choose|i: int| 0 <= i < a.len() && a[i] == t;
                        assert(b[i] == t);
                    }
                    assert(b[a.len() as int] == x@);
                    if b.contains(t) && t != x@ {
                        let i = choose|i: int| 0 <= i < b.len() && b[i] == t;
                        assert(a[i] == t);
                    }
                    assert(a.contains(t) == texts(s.take(k)).contains(t));
                }
            }
        }
    }
    proof {
        assert(s.take(s.len() as int) =~= s);
        assert forall|t: Seq<char>| #[trigger] texts(out@).contains(t) == texts(all).contains(t) by {
            if texts(s).contains(t) {
                let i = choose|i: int| 0 <= i < texts(s).len() && texts(s)[i] == t;
                lemma_ranked_contains(all, own_rank(), s[i]);
                assert(s.contains(s[i]));
                let j = choose|j: int| 0 <= j < all.len() && all[j] == s[i];
                assert(texts(all)[j] == t);
            }
            if texts(all).contains(t) {
                let j = choose|j: int| 0 <= j < texts(all).len() && texts(all)[j] == t;
                lemma_ranked_contains(all, own_rank(), all[j]);
                assert(all.contains(all[j]));
                let i = choose|i: int| 0 <= i < s.len() && s[i] == all[j];
                assert(texts(s)[i] == t);
            }
        }
    }
    out
}

/// The texts of a set in ascending order.
pub open spec fn sorted(m: Set<Seq<char>>) -> Seq<Seq<char>> {
    choose|s: Seq<Seq<char>>| #[trigger] ascending(s) && s.to_set() == m
}

proof fn lemma_ascending_unique(a: Seq<Seq<char>>, b: Seq<Seq<char>>)
    requires
        ascending(a),
        ascending(b),
        a.to_set() == b.to_set(),
    ensures
        a == b,
    decreases a.len(),
{
    assert forall|t: Seq<char>| a.contains(t) == b.contains(t) by {
        assert(a.to_set().contains(t) == a.contains(t));
        assert(b.to_set().contains(t) == b.contains(t));
    }
    if a.len() == 0 {
        if b.len() > 0 {
            assert(b.contains(b[0]));
        }
        assert(a =~= b);
    } else {
        let x = a.last();
        assert(a[a.len() - 1] == x);
        assert(b.contains(x));
        let k = choose|k: int| 0 <= k < b.len() && b[k] == x;
        let y = b.last();
        assert(b[b.len() - 1] == y);
        assert(a.contains(y));
        let j = choose|j: int| 0 <= j < a.len() && a[j] == y;
        if x != y {
            assert(lex_lt(codes(b[k]), codes(b[b.len() - 1])));
            assert(lex_lt(codes(a[j]), codes(a[a.len() - 1])));
            lemma_lex_transitive(codes(x), codes(y), codes(x));
            lemma_lex_irreflexive(codes(x));
        }
        let c = a.drop_last();
        let d = b.drop_last();
        assert(ascending(c)) by {
            assert forall|i: int, j: int| #![trigger c[i], c[j]] 0 <= i < j < c.len() implies lex_lt(codes(c[i]), codes(c[j])) by {
                assert(c[i] == a[i] && c[j] == a[j]);
            }
        }
        assert(ascending(d)) by {
            assert forall|i: int, j: int| #![trigger d[i], d[j]] 0 <= i < j < d.len() implies lex_lt(codes(d[i]), codes(d[j])) by {
                assert(d[i] == b[i] && d[j] == b[j]);
            }
        }
        assert forall|t: Seq<char>| c.contains(t) == d.contains(t) by {
            lemma_lex_irreflexive(codes(x));
            if c.contains(t) {
                let i = choose|i: int| 0 <= i < c.len() && c[i] == t;
                assert(a[i] == t && lex_lt(codes(a[i]), codes(a[a.len() - 1])));
                assert(a.contains(t));
                let m = choose|m: int| 0 <= m < b.len() && b[m] == t;
                assert(d[m] == t);
            }
            if d.contains(t) {
                let i = choose|i: int| 0 <= i < d.len() && d[i] == t;
                assert(b[i] == t && lex_lt(codes(b[i]), codes(b[b.len() - 1])));
                assert(b.contains(t));
                let m = choose|m: int| 0 <= m < a.len() && a[m] == t;
                assert(c[m] == t);
            }
        }
        assert(c.to_set() =~= d.to_set());
        lemma_ascending_unique(c, d);
        assert(a =~= c.push(x));
        assert(b =~= d.push(y));
    }
}

/// There is one way to put texts in ascending order.
pub proof fn lemma_sorted(s: Seq<Seq<char>>, m: Set<Seq<char>>)
    requires
        ascending(s),
        forall|t: Seq<char>| #[trigger] s.contains(t) == m.contains(t),
    ensures
        s == sorted(m),
{
    assert(s.to_set() =~= m) by {
        assert forall|t: Seq<char>| s.to_set().contains(t) == m.contains(t) by {
            assert(s.contains(t) == m.contains(t));
        }
    }
    let o = sorted(m);
    assert(ascending(o) && o.to_set() == m);
    lemma_ascending_unique(s, o);
}

} // verus!
