//! The channels as of the last refresh.
use vstd::prelude::*;
use crate::canonical::{CanonicalChannel, ChannelView, build_canonical, channel_views, channels};
use crate::default_order::Curation;
use crate::table::{Table, TextMap};
use crate::text::owned;
use crate::xtream::LiveStream;

verus! {

/// What a refresh found.
pub struct CatalogSnapshot {
    pub channels: Vec<CanonicalChannel>,
    /// The position of a channel, by its key.
    pub by_key: TextMap<usize>,
    /// In nanoseconds since the Unix epoch.
    pub last_refreshed: Option<i128>,
    pub source_host: Option<String>,
    pub stream_count: usize,
}

/// The seconds until the next refresh after one that failed.
pub const RETRY_SECS: u64 = 10;

/// The positions of the channels, by their keys; of two with one key the later.
pub open spec fn positions(cs: Seq<ChannelView>) -> Map<Seq<char>, usize>
    decreases cs.len(),
{
    if cs.len() == 0 {
        Map::empty()
    } else {
        positions(cs.drop_last()).insert(cs.last().key, (cs.len() - 1) as usize)
    }
}

proof fn lemma_positions(cs: Seq<ChannelView>)
    requires
        cs.len() <= usize::MAX,
    ensures
        forall|k: Seq<char>| #[trigger]
            positions(cs).contains_key(k) ==> positions(cs)[k] < cs.len() && cs[positions(cs)[k] as int].key == k,
        forall|i: int| 0 <= i < cs.len() ==> positions(cs).contains_key((#[trigger] cs[i]).key),
    decreases cs.len(),
{
    if cs.len() > 0 {
        let t = cs.drop_last();
        lemma_positions(t);
        assert forall|k: Seq<char>| #[trigger] positions(cs).contains_key(k) implies positions(cs)[k] < cs.len()
            && cs[positions(cs)[k] as int].key == k by {
            if k != cs.last().key {
                assert(positions(t).contains_key(k));
            }
        }
        assert forall|i: int| 0 <= i < cs.len() implies positions(cs).contains_key((#[trigger] cs[i]).key) by {
            if i < t.len() {
                assert(t[i] == cs[i]);
            }
        }
    }
}

impl CatalogSnapshot {
    /// Every channel is found under its key.
    pub open spec fn wf(&self) -> bool {
        self.by_key.wf() && self.by_key@ == positions(channel_views(self.channels@))
    }

    pub fn empty() -> (r: Self)
        ensures
            r.wf(),
            r.channels@.len() == 0,
            r.last_refreshed is None,
            r.source_host is None,
            r.stream_count == 0,
    {
        let r = CatalogSnapshot {
            channels: Vec::new(),
            by_key: Table::new(),
            last_refreshed: None,
            source_host: None,
            stream_count: 0,
        };
        proof {
            assert(channel_views(r.channels@).len() == 0);
        }
        r
    }

    /// What the streams that a host listed come to.
    pub fn of_streams(streams: &[LiveStream], curation: &Curation, host: String, now: i128) -> (r: Self)
        ensures
            r.wf(),
            channel_views(r.channels@) == channels(streams@, *curation),
            r.last_refreshed == Some(now),
            r.source_host == Some(host),
            r.stream_count == streams@.len(),
    {
        let list = build_canonical(streams, curation);
        let ghost views = channel_views(list@);
        let mut by_key: TextMap<usize> = Table::new();
        let mut i: usize = 0;
        while i < list.len()
            invariant
                i <= list@.len(),
                views == channel_views(list@),
                by_key.wf(),
                by_key@ == positions(views.take(i as int)),
            decreases list@.len() - i,
        {
            proof {
                assert(views.take(i + 1).drop_last() =~= views.take(i as int));
                assert(views.take(i + 1).last() == list@[i as int]@);
            }
            by_key.insert(list[i].key.clone(), i);
            i = i + 1;
        }
        proof {
            assert(views.take(i as int) =~= views);
        }
        CatalogSnapshot {
            channels: list,
            by_key,
            last_refreshed: Some(now),
            source_host: Some(host),
            stream_count: streams.len(),
        }
    }

    /// Adds the channels of a list of radio streams, which have a curation of their own.
    pub fn add_radio(&mut self, streams: &[LiveStream], curation: &Curation)
        requires
            old(self).wf(),
        ensures
            final(self).wf(),
            channel_views(final(self).channels@) == channel_views(old(self).channels@) + channels(streams@, *curation),
            final(self).last_refreshed == old(self).last_refreshed,
            final(self).source_host == old(self).source_host,
            final(self).stream_count == if old(self).stream_count + streams@.len() <= usize::MAX {
                (old(self).stream_count + streams@.len()) as usize
            } else {
                usize::MAX
            },
    {
        let list = build_canonical(streams, curation);
        let ghost start = channel_views(self.channels@);
        let ghost views = channel_views(list@);
        let ghost items = list@;
        proof {
            assert(start + views.take(0) =~= start);
        }
        for c in it: list
            invariant
                it.seq() == items,
                views == channel_views(items),
                self.last_refreshed == old(self).last_refreshed,
                self.source_host == old(self).source_host,
                self.stream_count == old(self).stream_count,
                self.by_key.wf(),
                self.by_key@ == positions(channel_views(self.channels@)),
                channel_views(self.channels@) == start + views.take(it.index()),
        {
            let ghost was = channel_views(self.channels@);
            let ghost k = it.index();
            let ghost v = c@;
            let i: usize = self.channels.len();
            self.by_key.insert(c.key.clone(), i);
            self.channels.push(c);
            proof {
                assert(views[k] == v);
                assert(channel_views(self.channels@) =~= was.push(v));
                assert(was.push(v).drop_last() =~= was);
                assert(was.push(v) =~= start + views.take(k + 1));
            }
        }
        proof {
            assert(views.take(views.len() as int) =~= views);
        }
        self.stream_count = self.stream_count.saturating_add(streams.len());
    }

    /// The channel with the key.
    pub fn lookup(&self, key: &str) -> (r: Option<&CanonicalChannel>)
        ensures
            match r {
                Some(c) => self.by_key@.contains_key(key@) && self.by_key@[key@] < self.channels@.len()
                    && self.channels@[self.by_key@[key@] as int] == *c,
                None => !(self.by_key@.contains_key(key@) && self.by_key@[key@] < self.channels@.len()),
            },
            self.wf() ==> match r {
                Some(c) => c.key@ == key@,
                None => forall|i: int| 0 <= i < self.channels@.len() ==> (#[trigger] self.channels@[i]).key@ != key@,
            },
    {
        proof {
            if self.wf() {
                assert(self.channels@.len() == self.channels.len());
                lemma_positions(channel_views(self.channels@));
                assert forall|i: int|
                    0 <= i < self.channels@.len() && !self.by_key@.contains_key(key@) implies (
                #[trigger] self.channels@[i]).key@ != key@ by {
                    assert(channel_views(self.channels@)[i].key == self.channels@[i].key@);
                }
            }
        }
        match self.by_key.get(&owned(key)) {
            Some(i) => {
                if *i < self.channels.len() {
                    proof {
                        assert(channel_views(self.channels@)[*i as int].key == self.channels@[*i as int].key@);
                    }
                    Some(&self.channels[*i])
                } else {
                    None
                }
            },
            None => None,
        }
    }
}

/// The seconds until the next refresh.
pub fn next_refresh_secs(succeeded: bool, interval_secs: u64) -> (r: u64)
    ensures
        r == if succeeded {
            interval_secs
        } else {
            RETRY_SECS
        },
{
    if succeeded {
        interval_secs
    } else {
        RETRY_SECS
    }
}

} // verus!
