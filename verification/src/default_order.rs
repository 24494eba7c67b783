//! The order of the channels and what else is laid down for them.
use vstd::prelude::*;
use crate::canonical::{aliased_key, canonical_key_with_aliases};
use crate::config::{CurationConfig, ProviderBoost};
use crate::outside::{is_pattern, pattern_valid};
use crate::table::{Table, TextMap};

verus! {

/// What is laid down for the channels.
#[derive(Debug)]
pub struct Curation {
    /// The place of a channel, by its key.
    pub rank: TextMap<usize>,
    pub aliases: TextMap<String>,
    pub display_overrides: TextMap<String>,
    pub logo_overrides: TextMap<String>,
    pub provider_boosts: Vec<ProviderBoost>,
}

impl Default for Curation {
    /// Nothing is laid down.
    fn default() -> (r: Self)
        ensures
            r.rank@ == Map::<Seq<char>, usize>::empty(),
            r.aliases@ == Map::<Seq<char>, String>::empty(),
            r.display_overrides@ == Map::<Seq<char>, String>::empty(),
            r.logo_overrides@ == Map::<Seq<char>, String>::empty(),
            r.provider_boosts@.len() == 0,
    {
        Curation {
            rank: Table::new(),
            aliases: Table::new(),
            display_overrides: Table::new(),
            logo_overrides: Table::new(),
            provider_boosts: Vec::new(),
        }
    }
}

/// A pattern that is no regular expression.
#[derive(Debug)]
pub struct BadPattern {
    pub pattern: String,
}

/// The places that an order of names gives to keys. Of two names with one key the first
/// counts; a name without a key has no place.
pub open spec fn order_ranks(order: Seq<String>, aliases: Map<Seq<char>, String>) -> Map<Seq<char>, usize>
    decreases order.len(),
{
    if order.len() == 0 {
        Map::empty()
    } else {
        let m = order_ranks(order.drop_last(), aliases);
        let key = aliased_key(order.last()@, aliases);
        if key.len() == 0 || m.contains_key(key) {
            m
        } else {
            m.insert(key, (order.len() - 1) as usize)
        }
    }
}

impl Clone for ProviderBoost {
    fn clone(&self) -> (r: Self)
        ensures
            r == *self,
    {
        ProviderBoost { pattern: self.pattern.clone(), score: self.score }
    }
}

/// A copy of a map of texts.
pub fn copy_texts(m: &TextMap<String>) -> (r: TextMap<String>)
    ensures
        r.entries@ == m.entries@,
        r@ == m@,
{
    let mut entries: Vec<(String, String)> = Vec::new();
    let mut i: usize = 0;
    while i < m.entries.len()
        invariant
            i <= m.entries@.len(),
            entries@ == m.entries@.take(i as int),
        decreases m.entries@.len() - i,
    {
        let k = m.entries[i].0.clone();
        let v = m.entries[i].1.clone();
        entries.push((k, v));
        proof {
            assert(entries@ =~= m.entries@.take(i + 1));
        }
        i = i + 1;
    }
    let r = Table { entries };
    proof {
        assert(r.entries@ =~= m.entries@);
        assert(r@ =~= m@);
    }
    r
}

/// The position of the first boost whose pattern is no regular expression.
pub open spec fn first_bad(boosts: Seq<ProviderBoost>) -> Option<int>
    decreases boosts.len(),
{
    if boosts.len() == 0 {
        None
    } else {
        match first_bad(boosts.drop_last()) {
            Some(i) => Some(i),
            None => if pattern_valid(boosts.last().pattern@) {
                None
            } else {
                Some(boosts.len() - 1)
            },
        }
    }
}

impl Curation {
    /// A configuration's curation. The first pattern that is no regular expression is an
    /// error.
    pub fn from_config(cfg: &CurationConfig) -> (r: Result<Curation, BadPattern>)
        ensures
            match r {
                Ok(c) => {
                    &&& first_bad(cfg.provider_boosts@) is None
                    &&& c.rank@ == order_ranks(cfg.order@, cfg.aliases@)
                    &&& c.rank.wf()
                    &&& c.aliases@ == cfg.aliases@
                    &&& c.display_overrides@ == cfg.display_overrides@
                    &&& c.logo_overrides@ == cfg.logo_overrides@
                    &&& c.provider_boosts@ == cfg.provider_boosts@
                },
                Err(e) => first_bad(cfg.provider_boosts@) matches Some(i) && e.pattern@
                    == cfg.provider_boosts@[i].pattern@,
            },
    {
        let mut boosts: Vec<ProviderBoost> = Vec::new();
        let mut i: usize = 0;
        while i < cfg.provider_boosts.len()
            invariant
                i <= cfg.provider_boosts@.len(),
                boosts@ == cfg.provider_boosts@.take(i as int),
                first_bad(cfg.provider_boosts@.take(i as int)) is None,
            decreases cfg.provider_boosts@.len() - i,
        {
            let b = &cfg.provider_boosts[i];
            proof {
                assert(cfg.provider_boosts@.take(i + 1).drop_last() =~= cfg.provider_boosts@.take(i as int));
            }
            if !is_pattern(&b.pattern) {
                proof {
                    lemma_first_bad(cfg.provider_boosts@, i + 1);
                }
                return Err(BadPattern { pattern: b.pattern.clone() });
            }
            boosts.push(b.clone());
            proof {
                assert(boosts@ =~= cfg.provider_boosts@.take(i + 1));
            }
            i = i + 1;
        }
        proof {
            assert(cfg.provider_boosts@.take(i as int) =~= cfg.provider_boosts@);
        }
        let mut rank: TextMap<usize> = TextMap::new();
        let mut k: usize = 0;
        while k < cfg.order.len()
            invariant
                k <= cfg.order@.len(),
                rank.wf(),
                rank@ == order_ranks(cfg.order@.take(k as int), cfg.aliases@),
            decreases cfg.order@.len() - k,
        {
            proof {
                assert(cfg.order@.take(k + 1).drop_last() =~= cfg.order@.take(k as int));
            }
            let key = canonical_key_with_aliases(&cfg.order[k], &cfg.aliases);
            if !key.as_str().is_empty() && rank.get(&key).is_none() {
                rank.insert(key, k);
            }
            k = k + 1;
        }
        proof {
            assert(cfg.order@.take(k as int) =~= cfg.order@);
        }
        Ok(
            Curation {
                rank,
                aliases: copy_texts(&cfg.aliases),
                display_overrides: copy_texts(&cfg.display_overrides),
                logo_overrides: copy_texts(&cfg.logo_overrides),
                provider_boosts: boosts,
            },
        )
    }

    /// A curation that lays nothing down.
    pub fn empty() -> (r: Curation)
        ensures
            r.rank@ == Map::<Seq<char>, usize>::empty(),
            r.rank.wf(),
            r.aliases@ == Map::<Seq<char>, String>::empty(),
            r.display_overrides@ == Map::<Seq<char>, String>::empty(),
            r.logo_overrides@ == Map::<Seq<char>, String>::empty(),
            r.provider_boosts@.len() == 0,
    {
        Curation {
            rank: TextMap::new(),
            aliases: TextMap::new(),
            display_overrides: TextMap::new(),
            logo_overrides: TextMap::new(),
            provider_boosts: Vec::new(),
        }
    }

    /// The place of a channel.
    pub open spec fn place(self, key: Seq<char>) -> Option<usize> {
        if self.rank@.contains_key(key) {
            Some(self.rank@[key])
        } else {
            None
        }
    }

    pub fn rank_of(&self, channel_key: &str) -> (r: Option<usize>)
        ensures
            r == self.place(channel_key@),
    {
        match self.rank.get(&channel_key.to_owned()) {
            Some(i) => Some(*i),
            None => None,
        }
    }
}

proof fn lemma_first_bad(boosts: Seq<ProviderBoost>, i: int)
    requires
        0 <= i <= boosts.len(),
        first_bad(boosts.take(i)) is Some,
    ensures
        first_bad(boosts) == first_bad(boosts.take(i)),
    decreases boosts.len() - i,
{
    if i < boosts.len() {
        assert(boosts.take(i + 1).drop_last() =~= boosts.take(i));
        lemma_first_bad(boosts, i + 1);
    } else {
        assert(boosts.take(i) =~= boosts);
    }
}

proof fn lemma_order_ranks(order: Seq<String>, aliases: Map<Seq<char>, String>)
    requires
        order.len() <= usize::MAX,
    ensures
        forall|k: Seq<char>| #[trigger] order_ranks(order, aliases).contains_key(k) ==> order_ranks(order, aliases)[k] < order.len()
            && aliased_key(order[order_ranks(order, aliases)[k] as int]@, aliases) == k,
        forall|i: int|
            0 <= i < order.len() && aliased_key((#[trigger] order[i])@, aliases).len() > 0 ==> order_ranks(order, aliases).contains_key(
                aliased_key(order[i]@, aliases),
            ) && order_ranks(order, aliases)[aliased_key(order[i]@, aliases)] <= i,
    decreases order.len(),
{
    if order.len() > 0 {
        let t = order.drop_last();
        lemma_order_ranks(t, aliases);
        assert forall|i: int| 0 <= i < t.len() implies #[trigger] order[i] == t[i] by {}
        let all = order_ranks(order, aliases);
        let m = order_ranks(t, aliases);
        assert forall|k: Seq<char>| #[trigger] all.contains_key(k) implies all[k] < order.len() && aliased_key(
            order[all[k] as int]@,
            aliases,
        ) == k by {
            if m.contains_key(k) {
                assert(all[k] == m[k]);
            } else {
                assert(order[order.len() - 1] == order.last());
            }
        }
    }
}

/// A name in the order gives its channel the place of the first name that means the channel.
pub proof fn law_channels_are_placed_by_the_order(order: Seq<String>, aliases: Map<Seq<char>, String>, i: int)
    requires
        order.len() <= usize::MAX,
        0 <= i < order.len(),
        aliased_key(order[i]@, aliases).len() > 0,
        forall|j: int| 0 <= j < i ==> aliased_key((#[trigger] order[j])@, aliases) != aliased_key(order[i]@, aliases),
    ensures
        order_ranks(order, aliases).contains_key(aliased_key(order[i]@, aliases)),
        order_ranks(order, aliases)[aliased_key(order[i]@, aliases)] == i,
{
    lemma_order_ranks(order, aliases);
    let k = aliased_key(order[i]@, aliases);
    let p = order_ranks(order, aliases)[k] as int;
    assert(aliased_key(order[p]@, aliases) == k);
}

/// A channel that no name in the order means has no place.
pub proof fn law_unnamed_channels_have_no_place(order: Seq<String>, aliases: Map<Seq<char>, String>, key: Seq<char>)
    requires
        order.len() <= usize::MAX,
        forall|j: int| 0 <= j < order.len() ==> aliased_key((#[trigger] order[j])@, aliases) != key,
    ensures
        !order_ranks(order, aliases).contains_key(key),
{
    lemma_order_ranks(order, aliases);
    if order_ranks(order, aliases).contains_key(key) {
        assert(aliased_key(order[order_ranks(order, aliases)[key] as int]@, aliases) == key);
    }
}

} // verus!
