//! How the server is doing.
use vstd::prelude::*;
use crate::blacklist::{Blacklist, recent_streams, tells_of_host};
use crate::catalog::CatalogSnapshot;
use crate::codec::{ClassView, Classification, StreamClassifier, VideoCodec};
use crate::epg::EpgState;
use crate::hosts::{HostState, HostStatus, alive_hosts, status_views};
use crate::measured::{MeasuredStore, Sample, pushed, window};
use crate::text::{opt_text, texts};

verus! {

#[derive(Debug)]
pub struct StatusDto {
    pub hosts: HostsStatusDto,
    pub catalog: CatalogStatusDto,
    pub epg: EpgStatusDto,
    pub blacklist: BlacklistStatusDto,
    pub classifier: ClassifierStatusDto,
}

#[derive(Debug)]
pub struct ClassifierStatusDto {
    pub classified: usize,
    pub hevc: usize,
    pub with_subs: usize,
    pub entries: Vec<ClassifierEntryDto>,
}

#[derive(Debug)]
pub struct ClassifierEntryDto {
    pub stream_id: u64,
    pub classification: Classification,
}

#[derive(Debug)]
pub struct HostsStatusDto {
    pub total: usize,
    pub alive: usize,
    pub blacklisted: usize,
    pub details: Vec<HostStatus>,
}

#[derive(Debug)]
pub struct CatalogStatusDto {
    pub channels: usize,
    pub stream_count: usize,
    pub source_host: Option<String>,
    /// In nanoseconds since the Unix epoch.
    pub last_refreshed: Option<i128>,
}

#[derive(Debug)]
pub struct EpgStatusDto {
    pub cached_channels: usize,
}

#[derive(Debug)]
pub struct BlacklistStatusDto {
    pub url_states_count: usize,
    pub bad_hosts: usize,
}

/// The streams of HEVC among the first `n`.
pub open spec fn hevc_count(v: Seq<ClassifierEntryDto>, n: int) -> nat
    decreases n,
{
    if n <= 0 {
        0
    } else {
        hevc_count(v, n - 1) + if v[n - 1].classification.video_codec == Some(VideoCodec::Hevc) {
            1nat
        } else {
            0
        }
    }
}

/// The streams with subtitles among the first `n`.
pub open spec fn subtitled_count(v: Seq<ClassifierEntryDto>, n: int) -> nat
    decreases n,
{
    if n <= 0 {
        0
    } else {
        subtitled_count(v, n - 1) + if v[n - 1].classification.subtitle_pids@.len() > 0 {
            1nat
        } else {
            0
        }
    }
}

/// The hosts on which some stream failed lately.
pub open spec fn failing_hosts(bl: Blacklist, now: i128) -> Set<Seq<char>> {
    bl@.hosts.dom().filter(|h: Seq<char>| recent_streams(bl@.hosts[h], now, bl.config.host_ttl_secs).len() > 0)
}

/// All streams and what is known of them, by ascending id.
pub open spec fn lists_classes(v: Seq<ClassifierEntryDto>, m: Map<u64, ClassView>) -> bool {
    &&& v.len() == m.dom().len()
    &&& forall|i: int|
        0 <= i < v.len() ==> m.contains_key((#[trigger] v[i]).stream_id) && m[v[i].stream_id] == v[i].classification@
    &&& forall|i: int, j: int| 0 <= i < j < v.len() ==> (#[trigger] v[i]).stream_id < (#[trigger] v[j]).stream_id
}

fn count_failing(blacklist: &Blacklist, now: i128) -> (r: usize)
    requires
        blacklist.wf(),
    ensures
        r == failing_hosts(*blacklist, now).len(),
{
    let v = blacklist.snapshot_hosts(now);
    proof {
        let hosts = blacklist@.hosts;
        let ttl = blacklist.config.host_ttl_secs;
        let names = Seq::new(v@.len(), |i: int| v@[i].host@);
        assert(names.no_duplicates()) by {
            assert forall|i: int, j: int| 0 <= i < names.len() && 0 <= j < names.len() && i != j implies names[i] != names[j] by {
                assert(v@[i].host@ == names[i] && v@[j].host@ == names[j]);
                if i < j {
                    assert(v@[i].host@ != v@[j].host@);
                } else {
                    assert(v@[j].host@ != v@[i].host@);
                }
            }
        }
        let m = failing_hosts(*blacklist, now);
        assert forall|h: Seq<char>| names.to_set().contains(h) == m.contains(h) by {
            assert(names.to_set().contains(h) == names.contains(h));
            if names.contains(h) {
                let i = choose|i: int| 0 <= i < names.len() && names[i] == h;
                assert(tells_of_host(hosts, ttl, now, v@[i]));
            }
            if m.contains(h) {
                let i = choose|i: int| 0 <= i < v@.len() && (#[trigger] v@[i]).host@ == h;
                assert(names[i] == h);
            }
        }
        assert(names.to_set() =~= m);
        names.unique_seq_to_set();
    }
    v.len()
}

fn count_alive(v: &Vec<HostStatus>) -> (r: usize)
    ensures
        r == alive_hosts(status_views(v@)).len(),
{
    let ghost all = status_views(v@);
    let mut n: usize = 0;
    let mut i: usize = 0;
    while i < v.len()
        invariant
            i <= v@.len(),
            n <= i,
            all == status_views(v@),
            n == alive_hosts(all.take(i as int)).len(),
        decreases v@.len() - i,
    {
        proof {
            assert(all[i as int] == v@[i as int]@);
            assert(all.take(i + 1).drop_last() =~= all.take(i as int));
            assert(all.take(i + 1).last() == all[i as int]);
        }
        if v[i].alive {
            n = n + 1;
        }
        i = i + 1;
    }
    proof {
        assert(all.take(i as int) =~= all);
    }
    n
}

fn list_classes(classifier: &StreamClassifier) -> (r: ClassifierStatusDto)
    ensures
        lists_classes(r.entries@, classifier@),
        r.classified == r.entries@.len(),
        r.hevc == hevc_count(r.entries@, r.entries@.len() as int),
        r.with_subs == subtitled_count(r.entries@, r.entries@.len() as int),
{
    let snap = classifier.snapshot();
    let ghost items = snap@;
    let mut entries: Vec<ClassifierEntryDto> = Vec::new();
    for e in it: snap
        invariant
            it.seq() == items,
            entries@.len() == it.index(),
            forall|i: int|
                0 <= i < entries@.len() ==> (#[trigger] entries@[i]).stream_id == items[i].0 && entries@[i].classification
                    == items[i].1,
    {
        entries.push(ClassifierEntryDto { stream_id: e.0, classification: e.1 });
    }
    let mut hevc: usize = 0;
    let mut with_subs: usize = 0;
    let mut i: usize = 0;
    while i < entries.len()
        invariant
            i <= entries@.len(),
            hevc <= i,
            with_subs <= i,
            hevc == hevc_count(entries@, i as int),
            with_subs == subtitled_count(entries@, i as int),
        decreases entries@.len() - i,
    {
        let c = &entries[i].classification;
        if let Some(VideoCodec::Hevc) = c.video_codec {
            hevc = hevc + 1;
        }
        if c.subtitle_pids.len() > 0 {
            with_subs = with_subs + 1;
        }
        i = i + 1;
    }
    ClassifierStatusDto { classified: entries.len(), hevc, with_subs, entries }
}

/// How the server is doing.
pub fn status(
    hosts: &HostState,
    catalog: &CatalogSnapshot,
    epg: &EpgState,
    blacklist: &Blacklist,
    classifier: &StreamClassifier,
    now: i128,
) -> (r: StatusDto)
    requires
        blacklist.wf(),
    ensures
        r.hosts.total == hosts@.len(),
        r.hosts.alive == alive_hosts(hosts@).len(),
        r.hosts.blacklisted == failing_hosts(*blacklist, now).len(),
        status_views(r.hosts.details@) == hosts@,
        r.catalog.channels == catalog.channels@.len(),
        r.catalog.stream_count == catalog.stream_count,
        opt_text(r.catalog.source_host) == opt_text(catalog.source_host),
        r.catalog.last_refreshed == catalog.last_refreshed,
        r.epg.cached_channels == epg@.dom().len(),
        blacklist@.urls.dom().len() == r.blacklist.url_states_count,
        r.blacklist.bad_hosts == failing_hosts(*blacklist, now).len(),
        lists_classes(r.classifier.entries@, classifier@),
        r.classifier.classified == r.classifier.entries@.len(),
        r.classifier.hevc == hevc_count(r.classifier.entries@, r.classifier.entries@.len() as int),
        r.classifier.with_subs == subtitled_count(r.classifier.entries@, r.classifier.entries@.len() as int),
{
    let details = hosts.snapshot();
    let blacklisted = count_failing(blacklist, now);
    let keys = epg.known_keys();
    proof {
        let names = texts(keys@);
        assert forall|k: Seq<char>| names.to_set().contains(k) == epg@.dom().contains(k) by {
            assert(names.to_set().contains(k) == names.contains(k));
            assert(names.contains(k) == epg@.contains_key(k));
        }
        assert(names.to_set() =~= epg@.dom());
        names.unique_seq_to_set();
    }
    StatusDto {
        hosts: HostsStatusDto { total: details.len(), alive: count_alive(&details), blacklisted, details },
        catalog: CatalogStatusDto {
            channels: catalog.channels.len(),
            stream_count: catalog.stream_count,
            source_host: catalog.source_host.clone(),
            last_refreshed: catalog.last_refreshed,
        },
        epg: EpgStatusDto { cached_channels: keys.len() },
        blacklist: BlacklistStatusDto { url_states_count: blacklist.per_url_count(), bad_hosts: blacklisted },
        classifier: list_classes(classifier),
    }
}

/// A sample to put into the store by hand.
#[derive(Debug)]
pub struct InjectSampleBody {
    pub stream_id: u64,
    pub host: String,
    pub sample: Sample,
}

/// Puts a sample into the store.
pub fn admin_inject_sample(measured: &mut MeasuredStore, body: InjectSampleBody)
    requires
        old(measured).wf(),
    ensures
        final(measured).wf(),
        final(measured)@ == old(measured)@.insert(
            (body.stream_id, body.host@),
            pushed(window(old(measured)@, body.stream_id, body.host@), body.sample@),
        ),
        final(measured).generation == old(measured).generation.wrapping_add(1),
        final(measured).dirty,
{
    measured.push(body.stream_id, &body.host, body.sample);
}

/// Streams are counted by what they are.
pub proof fn law_streams_are_counted_by_what_they_are(v: Seq<ClassifierEntryDto>)
    ensures
        hevc_count(v, v.len() as int) == v.filter(
            |e: ClassifierEntryDto| e.classification.video_codec == Some(VideoCodec::Hevc),
        ).len(),
        subtitled_count(v, v.len() as int) == v.filter(
            |e: ClassifierEntryDto| e.classification.subtitle_pids@.len() > 0,
        ).len(),
{
    assert(v.take(v.len() as int) =~= v);
    lemma_counts(v, v.len() as int);
}

proof fn lemma_counts(v: Seq<ClassifierEntryDto>, n: int)
    requires
        0 <= n <= v.len(),
    ensures
        hevc_count(v, n) == v.take(n).filter(
            |e: ClassifierEntryDto| e.classification.video_codec == Some(VideoCodec::Hevc),
        ).len(),
        subtitled_count(v, n) == v.take(n).filter(|e: ClassifierEntryDto| e.classification.subtitle_pids@.len() > 0).len(),
    decreases n,
{
    reveal(Seq::filter);
    if n > 0 {
        lemma_counts(v, n - 1);
        assert(v.take(n).drop_last() =~= v.take(n - 1));
        assert(v.take(n).last() == v[n - 1]);
    }
}

/// A host fails while some stream failed on it within the time that hosts are held to account.
pub proof fn law_hosts_fail_by_recent_streams(bl: Blacklist, now: i128, h: Seq<char>, stream: Seq<char>)
    requires
        bl@.hosts.contains_key(h),
        bl@.hosts[h].contains_key(stream),
        bl@.hosts[h].dom().finite(),
        bl.config.host_ttl_secs > 0,
    ensures
        now - bl@.hosts[h][stream] < bl.config.host_ttl_secs * 1000000000 ==> failing_hosts(bl, now).contains(h),
        (forall|s: Seq<char>|
            bl@.hosts[h].contains_key(s) ==> now - #[trigger] bl@.hosts[h][s] >= bl.config.host_ttl_secs * 1000000000)
            ==> !failing_hosts(bl, now).contains(h),
{
    let r = recent_streams(bl@.hosts[h], now, bl.config.host_ttl_secs);
    assert(r.subset_of(bl@.hosts[h].dom()));
    if now - bl@.hosts[h][stream] < bl.config.host_ttl_secs * 1000000000 {
        assert(r.contains(stream));
        assert(r.len() > 0) by {
            if r.len() == 0 {
                assert(r =~= Set::empty());
            }
        }
    }
    if forall|s: Seq<char>|
        bl@.hosts[h].contains_key(s) ==> now - #[trigger] bl@.hosts[h][s] >= bl.config.host_ttl_secs * 1000000000 {
        assert(r =~= Set::empty());
    }
}

} // verus!
