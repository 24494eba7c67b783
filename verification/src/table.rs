//! Maps whose keys are compared by what they hold.
use vstd::prelude::*;

verus! {

/// What can be a key.
pub trait TableKey: View + Sized {
    fn same_key(&self, other: &Self) -> (r: bool)
        ensures
            r == (self@ == other@),
    ;
}

impl TableKey for String {
    fn same_key(&self, other: &Self) -> (r: bool) {
        *self == *other
    }
}

/// A stream on a host.
#[derive(Debug)]
pub struct StreamHost {
    pub stream_id: u64,
    pub host: String,
}

impl View for StreamHost {
    type V = (u64, Seq<char>);

    open spec fn view(&self) -> (u64, Seq<char>) {
        (self.stream_id, self.host@)
    }
}

impl Clone for StreamHost {
    fn clone(&self) -> (r: Self)
        ensures
            r == *self,
    {
        StreamHost { stream_id: self.stream_id, host: self.host.clone() }
    }
}

impl TableKey for StreamHost {
    fn same_key(&self, other: &Self) -> (r: bool) {
        self.stream_id == other.stream_id && self.host == other.host
    }
}

/// The value behind the first entry for `k`.
pub open spec fn lookup<K: TableKey, V>(s: Seq<(K, V)>, k: K::V) -> Option<V>
    decreases s.len(),
{
    if s.len() == 0 {
        None
    } else if s[0].0@ == k {
        Some(s[0].1)
    } else {
        lookup(s.skip(1), k)
    }
}

/// A map, as a list of entries no two of which have one key.
#[derive(Debug)]
pub struct Table<K: TableKey, V> {
    pub entries: Vec<(K, V)>,
}

impl<K: TableKey, V> View for Table<K, V> {
    type V = Map<K::V, V>;

    open spec fn view(&self) -> Map<K::V, V> {
        Map::new(|k: K::V| lookup(self.entries@, k) is Some, |k: K::V| lookup(self.entries@, k)->0)
    }
}

/// No two entries have one key.
pub open spec fn distinct_keys<K: TableKey, V>(s: Seq<(K, V)>) -> bool {
    forall|i: int, j: int| #![trigger s[i], s[j]] 0 <= i < j < s.len() ==> s[i].0@ != s[j].0@
}

pub proof fn lemma_lookup<K: TableKey, V>(s: Seq<(K, V)>, k: K::V)
    ensures
        lookup(s, k) matches Some(v) ==> exists|i: int|
            0 <= i < s.len() && (#[trigger] s[i]).0@ == k && s[i].1 == v && forall|j: int| 0 <= j < i ==> (#[trigger] s[j]).0@ != k,
        lookup(s, k) is None ==> forall|i: int| 0 <= i < s.len() ==> (#[trigger] s[i]).0@ != k,
    decreases s.len(),
{
    if s.len() > 0 && s[0].0@ != k {
        let t = s.skip(1);
        lemma_lookup(t, k);
        match lookup(t, k) {
            Some(v) => {
                let i = choose|i: int|
                    0 <= i < t.len() && (#[trigger] t[i]).0@ == k && t[i].1 == v && forall|j: int|
                        0 <= j < i ==> (#[trigger] t[j]).0@ != k;
                assert(s[i + 1] == t[i]);
                assert forall|j: int| 0 <= j < i + 1 implies (#[trigger] s[j]).0@ != k by {
                    if j > 0 {
                        assert(s[j] == t[j - 1]);
                    }
                }
            },
            None => {
                assert forall|i: int| 0 <= i < s.len() implies (#[trigger] s[i]).0@ != k by {
                    if i > 0 {
                        assert(s[i] == t[i - 1]);
                    }
                }
            },
        }
    }
}

/// Where an entry for `k` stands, and none before it, it is the one that counts.
pub proof fn lemma_lookup_at<K: TableKey, V>(s: Seq<(K, V)>, i: int)
    requires
        0 <= i < s.len(),
        forall|j: int| 0 <= j < i ==> (#[trigger] s[j]).0@ != s[i].0@,
    ensures
        lookup(s, s[i].0@) == Some(s[i].1),
    decreases s.len(),
{
    if i > 0 {
        let t = s.skip(1);
        assert(t[i - 1] == s[i]);
        assert forall|j: int| 0 <= j < i - 1 implies (#[trigger] t[j]).0@ != t[i - 1].0@ by {
            assert(t[j] == s[j + 1]);
        }
        assert(s[0].0@ != s[i].0@);
        lemma_lookup_at(t, i - 1);
    }
}

pub proof fn lemma_lookup_none<K: TableKey, V>(s: Seq<(K, V)>, k: K::V)
    requires
        forall|i: int| 0 <= i < s.len() ==> (#[trigger] s[i]).0@ != k,
    ensures
        lookup(s, k) is None,
    decreases s.len(),
{
    if s.len() > 0 {
        let t = s.skip(1);
        assert forall|i: int| 0 <= i < t.len() implies (#[trigger] t[i]).0@ != k by {
            assert(t[i] == s[i + 1]);
        }
        assert(s[0].0@ != k);
        lemma_lookup_none(t, k);
    }
}

proof fn lemma_push<K: TableKey, V>(s: Seq<(K, V)>, e: (K, V))
    requires
        lookup(s, e.0@) is None,
    ensures
        lookup(s.push(e), e.0@) == Some(e.1),
        forall|k: K::V| k != e.0@ ==> #[trigger] lookup(s.push(e), k) == lookup(s, k),
    decreases s.len(),
{
    let t = s.push(e);
    reveal_with_fuel(lookup, 2);
    if s.len() > 0 {
        assert(t.skip(1) =~= s.skip(1).push(e));
        lemma_push(s.skip(1), e);
    }
    assert forall|k: K::V| k != e.0@ implies #[trigger] lookup(t, k) == lookup(s, k) by {
        if s.len() == 0 {
            assert(t.skip(1).len() == 0);
        } else {
            assert(t[0] == s[0]);
            assert(lookup(s.skip(1).push(e), k) == lookup(s.skip(1), k));
        }
    }
}

proof fn lemma_update<K: TableKey, V>(s: Seq<(K, V)>, i: int, e: (K, V))
    requires
        0 <= i < s.len(),
        s[i].0@ == e.0@,
        forall|j: int| 0 <= j < i ==> (#[trigger] s[j]).0@ != e.0@,
    ensures
        lookup(s.update(i, e), e.0@) == Some(e.1),
        forall|k: K::V| k != e.0@ ==> #[trigger] lookup(s.update(i, e), k) == lookup(s, k),
    decreases s.len(),
{
    let t = s.update(i, e);
    if i == 0 {
        assert(t.skip(1) =~= s.skip(1));
    } else {
        assert(s[0].0@ != e.0@);
        assert(t.skip(1) =~= s.skip(1).update(i - 1, e));
        assert forall|j: int| 0 <= j < i - 1 implies (#[trigger] s.skip(1)[j]).0@ != e.0@ by {
            assert(s.skip(1)[j] == s[j + 1]);
        }
        lemma_update(s.skip(1), i - 1, e);
    }
    assert forall|k: K::V| k != e.0@ implies #[trigger] lookup(t, k) == lookup(s, k) by {
        if i > 0 {
            assert(t[0] == s[0]);
            assert(lookup(s.skip(1).update(i - 1, e), k) == lookup(s.skip(1), k));
        }
    }
}

/// The entries that are to stay.
pub open spec fn kept<K: TableKey, V>(s: Seq<(K, V)>, keep: spec_fn(K::V, V) -> bool) -> Seq<(K, V)>
    decreases s.len(),
{
    if s.len() == 0 {
        s
    } else if keep(s.last().0@, s.last().1) {
        kept(s.drop_last(), keep).push(s.last())
    } else {
        kept(s.drop_last(), keep)
    }
}

pub proof fn lemma_kept<K: TableKey, V>(s: Seq<(K, V)>, keep: spec_fn(K::V, V) -> bool)
    requires
        distinct_keys(s),
    ensures
        distinct_keys(kept(s, keep)),
        forall|k: K::V| #[trigger]
            lookup(kept(s, keep), k) == match lookup(s, k) {
                Some(v) => if keep(k, v) {
                    Some(v)
                } else {
                    None
                },
                None => None,
            },
    decreases s.len(),
{
    if s.len() > 0 {
        let t = s.drop_last();
        let e = s.last();
        assert(distinct_keys(t)) by {
            assert forall|i: int, j: int| #![trigger t[i], t[j]] 0 <= i < j < t.len() implies t[i].0@ != t[j].0@ by {
                assert(s[i] == t[i] && s[j] == t[j]);
            }
        }
        lemma_kept(t, keep);
        assert(lookup(t, e.0@) is None) by {
            lemma_lookup(t, e.0@);
            if lookup(t, e.0@) is Some {
                let i = choose|i: int| 0 <= i < t.len() && (#[trigger] t[i]).0@ == e.0@;
                assert(s[i] == t[i]);
                assert(s[i].0@ != s[s.len() - 1].0@);
            }
        }
        lemma_push(t, e);
        assert(s =~= t.push(e));
        assert(lookup(kept(t, keep), e.0@) is None);
        if keep(e.0@, e.1) {
            lemma_push(kept(t, keep), e);
            lemma_lookup(kept(t, keep), e.0@);
        }
    }
}

/// What a list of entries holds; of two for one key the later.
pub open spec fn entered<K: TableKey, V>(s: Seq<(K, V)>) -> Map<K::V, V>
    decreases s.len(),
{
    if s.len() == 0 {
        Map::empty()
    } else {
        entered(s.drop_last()).insert(s.last().0@, s.last().1)
    }
}

/// Entries without a key in common hold what the table of them holds.
pub proof fn lemma_entered<K: TableKey, V>(s: Seq<(K, V)>)
    requires
        distinct_keys(s),
    ensures
        forall|k: K::V| #[trigger] entered(s).contains_key(k) == (lookup(s, k) is Some),
        forall|k: K::V| lookup(s, k) is Some ==> #[trigger] entered(s)[k] == lookup(s, k)->0,
    decreases s.len(),
{
    if s.len() > 0 {
        let t = s.drop_last();
        let e = s.last();
        assert(distinct_keys(t)) by {
            assert forall|i: int, j: int| #![trigger t[i], t[j]] 0 <= i < j < t.len() implies t[i].0@ != t[j].0@ by {
                assert(s[i] == t[i] && s[j] == t[j]);
            }
        }
        lemma_entered(t);
        assert(lookup(t, e.0@) is None) by {
            lemma_lookup(t, e.0@);
            if lookup(t, e.0@) is Some {
                let i = choose|i: int| 0 <= i < t.len() && (#[trigger] t[i]).0@ == e.0@;
                assert(s[i] == t[i]);
                assert(s[i].0@ != s[s.len() - 1].0@);
            }
        }
        lemma_push(t, e);
        assert(s =~= t.push(e));
        assert forall|k: K::V| #[trigger] entered(s).contains_key(k) == (lookup(s, k) is Some) by {
            assert(entered(t).contains_key(k) == (lookup(t, k) is Some));
        }
        assert forall|k: K::V| lookup(s, k) is Some implies #[trigger] entered(s)[k] == lookup(s, k)->0 by {
            if k != e.0@ {
                assert(lookup(t, k) is Some);
                assert(entered(t)[k] == lookup(t, k)->0);
            }
        }
    }
}

/// The keys of the entries.
pub open spec fn keys_of<K: TableKey, V>(s: Seq<(K, V)>) -> Seq<K::V> {
    Seq::new(s.len(), |i: int| s[i].0@)
}

/// As many entries stay as there are keys whose value is to stay.
pub proof fn lemma_kept_len<K: TableKey, V>(s: Seq<(K, V)>, keep: spec_fn(K::V, V) -> bool, keys: Set<K::V>)
    requires
        distinct_keys(s),
        forall|k: K::V| #[trigger] keys.contains(k) == (lookup(s, k) matches Some(v) && keep(k, v)),
    ensures
        keys.len() == kept(s, keep).len(),
        keys.finite(),
{
    lemma_kept(s, keep);
    let t = kept(s, keep);
    let ks = keys_of(t);
    assert forall|k: K::V| keys.contains(k) == ks.contains(k) by {
        lemma_lookup(t, k);
        if keys.contains(k) {
            assert(lookup(t, k) is Some);
            let i = choose|i: int| 0 <= i < t.len() && (#[trigger] t[i]).0@ == k;
            assert(ks[i] == k);
        }
        if ks.contains(k) {
            let i = choose|i: int| 0 <= i < ks.len() && ks[i] == k;
            assert(t[i].0@ == k);
            if lookup(t, k) is None {
                assert(false);
            }
        }
    }
    assert(keys =~= ks.to_set());
    assert(ks.no_duplicates()) by {
        assert forall|i: int, j: int| 0 <= i < j < ks.len() implies ks[i] != ks[j] by {
            assert(t[i].0@ != t[j].0@);
        }
    }
    ks.unique_seq_to_set();
}

impl<K: TableKey, V> Table<K, V> {
    pub open spec fn wf(&self) -> bool {
        distinct_keys(self.entries@)
    }

    pub fn new() -> (r: Self)
        ensures
            r.wf(),
            r@ == Map::<K::V, V>::empty(),
    {
        let r = Table { entries: Vec::new() };
        proof {
            assert(r@ =~= Map::<K::V, V>::empty());
        }
        r
    }

    /// The table that a list of entries holds.
    pub fn from_entries(entries: Vec<(K, V)>) -> (r: Self)
        ensures
            r.wf(),
            r@ == entered(entries@),
    {
        let mut r: Table<K, V> = Table::new();
        let ghost all = entries@;
        for e in it: entries
            invariant
                it.seq() == all,
                r.wf(),
                r@ == entered(all.take(it.index())),
        {
            proof {
                let k = it.index();
                assert(all.take(k + 1).drop_last() =~= all.take(k));
            }
            let (k, v) = e;
            r.insert(k, v);
        }
        proof {
            assert(all.take(all.len() as int) =~= all);
        }
        r
    }

    /// The position of the entry for `k`, or the number of entries.
    pub fn position(&self, k: &K) -> (r: usize)
        ensures
            r <= self.entries@.len(),
            forall|j: int| 0 <= j < r ==> (#[trigger] self.entries@[j]).0@ != k@,
            r < self.entries@.len() ==> self.entries@[r as int].0@ == k@ && self@.contains_key(k@)
                && self@[k@] == self.entries@[r as int].1,
            r == self.entries@.len() ==> !self@.contains_key(k@),
    {
        let mut i: usize = 0;
        while i < self.entries.len()
            invariant
                i <= self.entries@.len(),
                forall|j: int| 0 <= j < i ==> (#[trigger] self.entries@[j]).0@ != k@,
            decreases self.entries@.len() - i,
        {
            if self.entries[i].0.same_key(k) {
                proof {
                    lemma_lookup_at(self.entries@, i as int);
                }
                return i;
            }
            i = i + 1;
        }
        proof {
            lemma_lookup_none(self.entries@, k@);
        }
        i
    }

    pub fn get(&self, k: &K) -> (r: Option<&V>)
        ensures
            match r {
                Some(v) => self@.contains_key(k@) && self@[k@] == *v,
                None => !self@.contains_key(k@),
            },
    {
        let i = self.position(k);
        if i < self.entries.len() {
            Some(&self.entries[i].1)
        } else {
            None
        }
    }

    pub fn insert(&mut self, k: K, v: V)
        requires
            old(self).wf(),
        ensures
            final(self).wf(),
            final(self)@ == old(self)@.insert(k@, v),
    {
        let i = self.position(&k);
        let ghost was = self.entries@;
        let ghost e = (k, v);
        if i < self.entries.len() {
            proof {
                lemma_update(was, i as int, e);
            }
            self.entries.set(i, (k, v));
        } else {
            proof {
                lemma_push(was, e);
            }
            self.entries.push((k, v));
        }
        proof {
            assert(self@ =~= old(self)@.insert(e.0@, e.1)) by {
                assert forall|q: K::V| self@.contains_key(q) == old(self)@.insert(e.0@, e.1).contains_key(q) by {}
            }
        }
    }
}

/// The entries of a table, read back, hold what the table held.
pub proof fn law_entries_round_trip<K: TableKey, V>(t: Table<K, V>)
    requires
        t.wf(),
    ensures
        entered(t.entries@) == t@,
{
    lemma_entered(t.entries@);
    assert(entered(t.entries@) =~= t@);
}

/// A map from texts.
pub type TextMap<V> = Table<String, V>;

} // verus!
