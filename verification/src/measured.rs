//! Measured quality: a short window of samples for each stream on each host, and what
//! they add up to.
use std::collections::VecDeque;
use vstd::prelude::*;
use crate::clock::span;
use crate::order::{Ranked, codes, is_ranked, law_ranked, lemma_ranked_contains, lemma_ranked_distinct, own_rank};
use crate::order::{lex_lt, ranked_by, sort_ranked, text_before};
use crate::single::{ONE, Single, law_one_times_a_number, lemma_product_rises, lemma_sum_with_nothing};
use crate::single::{lemma_times_nothing, product, sum};
use crate::table::{StreamHost, Table, distinct_keys, kept, lemma_kept, lemma_lookup, lemma_lookup_at};
use crate::text::{chars_of, contains, opt_text, owned, str_eq, str_has, texts};

verus! {

/// How many samples are kept for a stream on a host.
pub const WINDOW: usize = 5;

#[derive(Debug, Clone, Copy, PartialEq, Eq, Structural)]
pub enum SampleSource {
    /// A probe of the server's own.
    Sweep,
    /// What someone watched.
    PerPlay,
}

/// One measurement.
#[derive(Debug)]
pub struct Sample {
    /// When, in nanoseconds since the Unix epoch.
    pub at: i128,
    pub source: SampleSource,
    /// Zero for radio.
    pub width: u32,
    pub height: u32,
    pub codec: Option<String>,
    pub pix_fmt: Option<String>,
    pub color_transfer: Option<String>,
    pub framerate: Option<Single>,
    pub bitrate_kbps: Option<u32>,
    /// Subtitles ride on the clock's PID.
    pub dvb_unsafe: Option<bool>,
    pub sample_rate_hz: Option<u32>,
    pub audio_channels: Option<u8>,
    /// Some slice refers to more frames than its sequence parameter set allows.
    pub h264_excess_refs: Option<bool>,
}

/// The contents of a `Sample`.
pub struct SampleView {
    pub at: int,
    pub source: SampleSource,
    pub width: u32,
    pub height: u32,
    pub codec: Option<Seq<char>>,
    pub pix_fmt: Option<Seq<char>>,
    pub color_transfer: Option<Seq<char>>,
    pub framerate: Option<Single>,
    pub bitrate_kbps: Option<u32>,
    pub dvb_unsafe: Option<bool>,
    pub sample_rate_hz: Option<u32>,
    pub audio_channels: Option<u8>,
    pub h264_excess_refs: Option<bool>,
}

impl View for Sample {
    type V = SampleView;

    open spec fn view(&self) -> SampleView {
        SampleView {
            at: self.at as int,
            source: self.source,
            width: self.width,
            height: self.height,
            codec: opt_text(self.codec),
            pix_fmt: opt_text(self.pix_fmt),
            color_transfer: opt_text(self.color_transfer),
            framerate: self.framerate,
            bitrate_kbps: self.bitrate_kbps,
            dvb_unsafe: self.dvb_unsafe,
            sample_rate_hz: self.sample_rate_hz,
            audio_channels: self.audio_channels,
            h264_excess_refs: self.h264_excess_refs,
        }
    }
}

impl Clone for Sample {
    fn clone(&self) -> (r: Self)
        ensures
            r@ == self@,
    {
        Sample {
            at: self.at,
            source: self.source,
            width: self.width,
            height: self.height,
            codec: self.codec.clone(),
            pix_fmt: self.pix_fmt.clone(),
            color_transfer: self.color_transfer.clone(),
            framerate: self.framerate,
            bitrate_kbps: self.bitrate_kbps,
            dvb_unsafe: self.dvb_unsafe,
            sample_rate_hz: self.sample_rate_hz,
            audio_channels: self.audio_channels,
            h264_excess_refs: self.h264_excess_refs,
        }
    }
}

/// What is known of a stream's references to too many frames.
#[derive(Debug, Clone, Copy, PartialEq, Eq, Structural)]
pub enum ExcessRefsState {
    /// The stream is not H.264.
    NotApplicable,
    /// Some sample in the window found them.
    On,
    /// At least two samples in the window did not find them, and none did.
    Off,
    /// Neither.
    Unknown,
}

/// What the samples of a window add up to.
#[derive(Debug)]
pub struct MeasuredQuality {
    pub width: u32,
    pub height: u32,
    pub codec: Option<String>,
    pub pix_fmt: Option<String>,
    pub color_transfer: Option<String>,
    pub framerate: Option<Single>,
    /// The median of the samples that have a bit rate.
    pub bitrate_kbps: Option<u32>,
    pub dvb_unsafe: Option<bool>,
    pub sample_rate_hz: Option<u32>,
    pub audio_channels: Option<u8>,
    pub h264_excess_refs_state: ExcessRefsState,
    /// The capabilities that a client must have to play the stream.
    pub caps_required: Vec<String>,
    pub samples_count: usize,
    pub measured_at: i128,
}

/// The contents of a `MeasuredQuality`.
pub struct QualityView {
    pub width: u32,
    pub height: u32,
    pub codec: Option<Seq<char>>,
    pub pix_fmt: Option<Seq<char>>,
    pub color_transfer: Option<Seq<char>>,
    pub framerate: Option<Single>,
    pub bitrate_kbps: Option<u32>,
    pub dvb_unsafe: Option<bool>,
    pub sample_rate_hz: Option<u32>,
    pub audio_channels: Option<u8>,
    pub h264_excess_refs_state: ExcessRefsState,
    pub caps_required: Seq<Seq<char>>,
    pub samples_count: nat,
    pub measured_at: int,
}

impl View for MeasuredQuality {
    type V = QualityView;

    open spec fn view(&self) -> QualityView {
        QualityView {
            width: self.width,
            height: self.height,
            codec: opt_text(self.codec),
            pix_fmt: opt_text(self.pix_fmt),
            color_transfer: opt_text(self.color_transfer),
            framerate: self.framerate,
            bitrate_kbps: self.bitrate_kbps,
            dvb_unsafe: self.dvb_unsafe,
            sample_rate_hz: self.sample_rate_hz,
            audio_channels: self.audio_channels,
            h264_excess_refs_state: self.h264_excess_refs_state,
            caps_required: texts(self.caps_required@),
            samples_count: self.samples_count as nat,
            measured_at: self.measured_at as int,
        }
    }
}

/// The samples of a stream on a host, the oldest first.
#[derive(Debug)]
pub struct MeasuredEntry {
    pub samples: VecDeque<Sample>,
}

/// The contents of each sample.
pub open spec fn sample_views(s: Seq<Sample>) -> Seq<SampleView> {
    s.map_values(|x: Sample| x@)
}

impl View for MeasuredEntry {
    type V = Seq<SampleView>;

    open spec fn view(&self) -> Seq<SampleView> {
        sample_views(self.samples@)
    }
}

impl Clone for MeasuredEntry {
    fn clone(&self) -> (r: Self)
        ensures
            r@ == self@,
    {
        let mut samples: VecDeque<Sample> = VecDeque::new();
        let mut i: usize = 0;
        while i < self.samples.len()
            invariant
                i <= self.samples@.len(),
                sample_views(samples@) == sample_views(self.samples@).take(i as int),
            decreases self.samples@.len() - i,
        {
            let ghost was = samples@;
            let s = self.samples[i].clone();
            samples.push_back(s);
            proof {
                assert(sample_views(samples@) =~= sample_views(was).push(s@));
                assert(sample_views(samples@) =~= sample_views(self.samples@).take(i + 1));
            }
            i = i + 1;
        }
        proof {
            assert(sample_views(samples@) =~= sample_views(self.samples@));
        }
        MeasuredEntry { samples }
    }
}

/// A window with one more sample; a full window loses its oldest.
pub open spec fn pushed(w: Seq<SampleView>, s: SampleView) -> Seq<SampleView> {
    if w.len() >= WINDOW {
        w.skip(1).push(s)
    } else {
        w.push(s)
    }
}

/// The bit rates of the samples that have one.
pub open spec fn bitrates(w: Seq<SampleView>) -> Seq<u64>
    decreases w.len(),
{
    if w.len() == 0 {
        Seq::empty()
    } else {
        match w.last().bitrate_kbps {
            Some(k) => bitrates(w.drop_last()).push(k as u64),
            None => bitrates(w.drop_last()),
        }
    }
}

/// The middle one of the numbers in ascending order, the upper of two.
pub open spec fn upper_median(s: Seq<u64>) -> Option<u64> {
    if s.len() == 0 {
        None
    } else {
        Some(ranked_by(s, own_rank())[s.len() as int / 2])
    }
}

/// Some sample found references to too many frames.
pub open spec fn found_excess(w: Seq<SampleView>) -> bool {
    exists|i: int| 0 <= i < w.len() && (#[trigger] w[i]).h264_excess_refs == Some(true)
}

/// How many samples looked for references to too many frames and found none.
pub open spec fn clean_samples(w: Seq<SampleView>) -> nat
    decreases w.len(),
{
    if w.len() == 0 {
        0
    } else {
        clean_samples(w.drop_last()) + if w.last().h264_excess_refs == Some(false) {
            1nat
        } else {
            0
        }
    }
}

/// What the window says of references to too many frames, for a stream of the codec.
pub open spec fn excess_state(w: Seq<SampleView>, codec: Option<Seq<char>>) -> ExcessRefsState {
    match codec {
        None => ExcessRefsState::Unknown,
        Some(c) => if c != "h264"@ {
            ExcessRefsState::NotApplicable
        } else if found_excess(w) {
            ExcessRefsState::On
        } else if clean_samples(w) >= 2 {
            ExcessRefsState::Off
        } else {
            ExcessRefsState::Unknown
        },
    }
}

pub fn excess_refs_state(samples: &VecDeque<Sample>, last_codec: Option<&str>) -> (r: ExcessRefsState)
    ensures
        r == excess_state(
            sample_views(samples@),
            match last_codec {
                Some(c) => Some(c@),
                None => None,
            },
        ),
{
    match last_codec {
        Some(c) => if !str_eq(c, "h264") {
            return ExcessRefsState::NotApplicable;
        },
        None => {
            return ExcessRefsState::Unknown;
        },
    }
    let ghost w = sample_views(samples@);
    let mut clean: usize = 0;
    let mut i: usize = 0;
    while i < samples.len()
        invariant
            i <= samples@.len(),
            w == sample_views(samples@),
            clean <= i,
            clean == clean_samples(w.take(i as int)),
            last_codec matches Some(c) && c@ == "h264"@,
            forall|j: int| 0 <= j < i ==> (#[trigger] w[j]).h264_excess_refs != Some(true),
        decreases samples@.len() - i,
    {
        proof {
            assert(w.take(i + 1).drop_last() =~= w.take(i as int));
            assert(w[i as int] == samples@[i as int]@);
        }
        match samples[i].h264_excess_refs {
            Some(true) => {
                return ExcessRefsState::On;
            },
            Some(false) => {
                clean = clean + 1;
            },
            None => {},
        }
        i = i + 1;
    }
    proof {
        assert(w.take(i as int) =~= w);
    }
    if clean >= 2 {
        ExcessRefsState::Off
    } else {
        ExcessRefsState::Unknown
    }
}

/// The sample is of radio: it has a sample rate, or is AAC without a picture.
pub open spec fn of_radio(s: SampleView) -> bool {
    s.sample_rate_hz is Some || (s.codec == Some("aac"@) && s.width == 0)
}

/// The pixel format has ten bits.
pub open spec fn ten_bit(pix_fmt: Option<Seq<char>>) -> bool {
    match pix_fmt {
        Some(p) => contains(p, "10"@),
        None => false,
    }
}

/// One text, or none.
pub open spec fn only_if(c: bool, s: Seq<char>) -> Seq<Seq<char>> {
    if c {
        seq![s]
    } else {
        Seq::empty()
    }
}

/// The capabilities that the sample's stream asks for, in alphabetical order. While it is
/// not known that an H.264 stream keeps to its frame limit, that capability is asked for.
pub open spec fn variant_caps(s: SampleView, state: ExcessRefsState) -> Seq<Seq<char>> {
    let tv = !of_radio(s);
    let h264 = s.codec == Some("h264"@);
    let hevc = s.codec == Some("hevc"@) || s.codec == Some("h265"@);
    only_if(tv, "aac"@) + only_if(s.dvb_unsafe == Some(true), "dvb_safe"@) + only_if(tv && h264, "h264"@) + only_if(
        h264 && (state == ExcessRefsState::On || state == ExcessRefsState::Unknown),
        "h264_excess_refs"@,
    ) + only_if(tv && hevc, "hevc"@) + only_if(tv && hevc && ten_bit(s.pix_fmt), "hevc_main10"@) + only_if(true, "hls"@)
        + only_if(!tv, "live_audio_only_hls"@) + only_if(tv, "live_video_hls"@)
}

fn push_if(out: &mut Vec<String>, c: bool, s: &str)
    ensures
        texts(final(out)@) == texts(old(out)@) + only_if(c, s@),
{
    let ghost was = texts(out@);
    if c {
        out.push(owned(s));
    }
    proof {
        assert(texts(out@) =~= was + only_if(c, s@));
    }
}

/// Whether the optional text is `s`.
pub fn is_text(o: &Option<String>, s: &str) -> (r: bool)
    ensures
        r == (opt_text(*o) == Some(s@)),
{
    match o {
        Some(t) => str_eq(t, s),
        None => false,
    }
}

/// Whether the pixel format has ten bits.
pub fn is_ten_bit(pix_fmt: &Option<String>) -> (r: bool)
    ensures
        r == ten_bit(opt_text(*pix_fmt)),
{
    match pix_fmt {
        Some(p) => str_has(p, "10"),
        None => false,
    }
}

pub fn derive_variant_caps(sample: &Sample, excess_state: ExcessRefsState) -> (r: Vec<String>)
    ensures
        texts(r@) == variant_caps(sample@, excess_state),
{
    let radio = sample.sample_rate_hz.is_some() || (is_text(&sample.codec, "aac") && sample.width == 0);
    let h264 = is_text(&sample.codec, "h264");
    let hevc = is_text(&sample.codec, "hevc") || is_text(&sample.codec, "h265");
    let guarded = match excess_state {
        ExcessRefsState::On => true,
        ExcessRefsState::Unknown => true,
        _ => false,
    };
    let dvb = match sample.dvb_unsafe {
        Some(b) => b,
        None => false,
    };
    let mut caps: Vec<String> = Vec::new();
    proof {
        assert(texts(caps@) =~= Seq::<Seq<char>>::empty());
    }
    push_if(&mut caps, !radio, "aac");
    push_if(&mut caps, dvb, "dvb_safe");
    push_if(&mut caps, !radio && h264, "h264");
    push_if(&mut caps, h264 && guarded, "h264_excess_refs");
    push_if(&mut caps, !radio && hevc, "hevc");
    push_if(&mut caps, !radio && hevc && is_ten_bit(&sample.pix_fmt), "hevc_main10");
    push_if(&mut caps, true, "hls");
    push_if(&mut caps, radio, "live_audio_only_hls");
    push_if(&mut caps, !radio, "live_video_hls");
    proof {
        assert(texts(caps@) =~= variant_caps(sample@, excess_state));
    }
    caps
}

/// What a window adds up to: the latest sample, with the median bit rate.
pub open spec fn quality(w: Seq<SampleView>) -> Option<QualityView> {
    if w.len() == 0 {
        None
    } else {
        let last = w.last();
        let state = excess_state(w, last.codec);
        Some(
            QualityView {
                width: last.width,
                height: last.height,
                codec: last.codec,
                pix_fmt: last.pix_fmt,
                color_transfer: last.color_transfer,
                framerate: last.framerate,
                bitrate_kbps: match upper_median(bitrates(w)) {
                    Some(k) => Some(k as u32),
                    None => None,
                },
                dvb_unsafe: last.dvb_unsafe,
                sample_rate_hz: last.sample_rate_hz,
                audio_channels: last.audio_channels,
                h264_excess_refs_state: state,
                caps_required: variant_caps(last, state),
                samples_count: w.len(),
                measured_at: last.at,
            },
        )
    }
}

proof fn lemma_bitrates_fit(w: Seq<SampleView>)
    ensures
        forall|i: int| 0 <= i < bitrates(w).len() ==> #[trigger] bitrates(w)[i] <= u32::MAX,
    decreases w.len(),
{
    if w.len() > 0 {
        lemma_bitrates_fit(w.drop_last());
        assert forall|i: int| 0 <= i < bitrates(w).len() implies #[trigger] bitrates(w)[i] <= u32::MAX by {
            if i < bitrates(w.drop_last()).len() {
                assert(bitrates(w)[i] == bitrates(w.drop_last())[i]);
            }
        }
    }
}

fn median_bitrate(samples: &VecDeque<Sample>) -> (r: Option<u32>)
    ensures
        r == match upper_median(bitrates(sample_views(samples@))) {
            Some(k) => Some(k as u32),
            None => None,
        },
{
    let ghost w = sample_views(samples@);
    let mut rates: Vec<u64> = Vec::new();
    let mut i: usize = 0;
    while i < samples.len()
        invariant
            i <= samples@.len(),
            w == sample_views(samples@),
            rates@ == bitrates(w.take(i as int)),
        decreases samples@.len() - i,
    {
        proof {
            assert(w.take(i + 1).drop_last() =~= w.take(i as int));
            assert(w[i as int] == samples@[i as int]@);
        }
        if let Some(k) = samples[i].bitrate_kbps {
            rates.push(k as u64);
        }
        i = i + 1;
    }
    proof {
        assert(w.take(i as int) =~= w);
    }
    let ghost all = rates@;
    let sorted = sort_ranked(rates);
    proof {
        law_ranked(all, own_rank());
    }
    if sorted.len() == 0 {
        return None;
    }
    let m: u64 = sorted[sorted.len() / 2];
    proof {
        lemma_bitrates_fit(w);
        lemma_ranked_contains(all, own_rank(), m);
        assert(sorted@.contains(m));
    }
    Some(m as u32)
}

impl Default for MeasuredEntry {
    fn default() -> (r: Self)
        ensures
            r@ == Seq::<SampleView>::empty(),
    {
        let r = MeasuredEntry { samples: VecDeque::new() };
        proof {
            assert(r@ =~= Seq::<SampleView>::empty());
        }
        r
    }
}

impl MeasuredEntry {
    pub fn push(&mut self, s: Sample)
        ensures
            final(self)@ == pushed(old(self)@, s@),
    {
        let ghost was = self.samples@;
        if self.samples.len() >= WINDOW {
            let _ = self.samples.pop_front();
        }
        self.samples.push_back(s);
        proof {
            assert(sample_views(self.samples@) =~= pushed(sample_views(was), s@));
        }
    }

    pub fn aggregate(&self) -> (r: Option<MeasuredQuality>)
        ensures
            match r {
                Some(q) => quality(self@) == Some(q@),
                None => quality(self@) is None,
            },
    {
        if self.samples.len() == 0 {
            return None;
        }
        let last = &self.samples[self.samples.len() - 1];
        proof {
            assert(self@.last() == last@);
        }
        let codec = match &last.codec {
            Some(c) => Some(c.as_str()),
            None => None,
        };
        let state = excess_refs_state(&self.samples, codec);
        Some(
            MeasuredQuality {
                width: last.width,
                height: last.height,
                codec: last.codec.clone(),
                pix_fmt: last.pix_fmt.clone(),
                color_transfer: last.color_transfer.clone(),
                framerate: last.framerate,
                bitrate_kbps: median_bitrate(&self.samples),
                dvb_unsafe: last.dvb_unsafe,
                sample_rate_hz: last.sample_rate_hz,
                audio_channels: last.audio_channels,
                h264_excess_refs_state: state,
                caps_required: derive_variant_caps(last, state),
                samples_count: self.samples.len(),
                measured_at: last.at,
            },
        )
    }
}

/// A window never grows beyond its size, and its latest sample is the one pushed last.
pub proof fn law_window_is_bounded(w: Seq<SampleView>, s: SampleView)
    requires
        w.len() <= WINDOW,
    ensures
        pushed(w, s).len() <= WINDOW,
        pushed(w, s).last() == s,
        forall|i: int|
            0 <= i < pushed(w, s).len() - 1 ==> #[trigger] pushed(w, s)[i] == w[i + w.len() + 1 - pushed(w, s).len()],
{
}

/// What is known of a stream is what its latest sample says.
pub proof fn law_quality_is_that_of_the_latest_sample(w: Seq<SampleView>, s: SampleView)
    ensures
        quality(pushed(w, s)) matches Some(q) && {
            &&& q.width == s.width
            &&& q.height == s.height
            &&& q.codec == s.codec
            &&& q.pix_fmt == s.pix_fmt
            &&& q.color_transfer == s.color_transfer
            &&& q.framerate == s.framerate
            &&& q.dvb_unsafe == s.dvb_unsafe
            &&& q.sample_rate_hz == s.sample_rate_hz
            &&& q.audio_channels == s.audio_channels
            &&& q.measured_at == s.at
            &&& q.samples_count == pushed(w, s).len()
        },
        quality(Seq::<SampleView>::empty()) is None,
{
    assert(pushed(w, s).last() == s);
}

/// The bit rate of a stream is the middle one of those of its samples: half of them are no higher,
/// and half no lower.
pub proof fn law_bit_rate_is_the_middle_one(w: Seq<SampleView>)
    requires
        w.len() > 0,
        forall|i: int| 0 <= i < w.len() ==> (#[trigger] w[i]).bitrate_kbps is Some,
    ensures
        ({
            let rates = Seq::new(w.len(), |i: int| w[i].bitrate_kbps->0 as u64);
            quality(w)->0.bitrate_kbps matches Some(k) && exists|r: Seq<u64>|
                #![trigger r.to_multiset()]
                r.to_multiset() == rates.to_multiset() && r.len() == rates.len() && r[rates.len() as int / 2] == k && (forall|
                    i: int,
                    j: int,
                |
                    #![trigger r[i], r[j]]
                    0 <= i < j < r.len() ==> r[i] <= r[j])
        }),
{
    let rates = Seq::new(w.len(), |i: int| w[i].bitrate_kbps->0 as u64);
    lemma_all_bitrates(w);
    assert(bitrates(w) =~= rates);
    let r = ranked_by(rates, own_rank());
    law_ranked(rates, own_rank());
    assert forall|i: int, j: int| #![trigger r[i], r[j]] 0 <= i < j < r.len() implies r[i] <= r[j] by {
        assert(!lex_lt(own_rank::<u64>()(r[j]), own_rank::<u64>()(r[i])));
    }
    let k = r[rates.len() as int / 2];
    assert(r.contains(k));
    lemma_ranked_contains(rates, own_rank(), k);
    let i = choose|i: int| 0 <= i < rates.len() && rates[i] == k;
    assert(k <= u32::MAX);
    assert(r.to_multiset() == rates.to_multiset());
}

proof fn lemma_all_bitrates(w: Seq<SampleView>)
    requires
        forall|i: int| 0 <= i < w.len() ==> (#[trigger] w[i]).bitrate_kbps is Some,
    ensures
        bitrates(w).len() == w.len(),
        forall|i: int| 0 <= i < w.len() ==> #[trigger] bitrates(w)[i] == w[i].bitrate_kbps->0,
    decreases w.len(),
{
    if w.len() > 0 {
        let t = w.drop_last();
        assert forall|i: int| 0 <= i < t.len() implies (#[trigger] t[i]).bitrate_kbps is Some by {
            assert(t[i] == w[i]);
        }
        lemma_all_bitrates(t);
        assert(w.last() == w[w.len() - 1]);
    }
}

/// Samples without a bit rate do not count for it.
pub proof fn law_samples_without_a_bit_rate_do_not_count(w: Seq<SampleView>, s: SampleView)
    requires
        s.bitrate_kbps is None,
        0 < w.len() < WINDOW,
    ensures
        quality(pushed(w, s))->0.bitrate_kbps == quality(w)->0.bitrate_kbps,
{
    assert(pushed(w, s).drop_last() =~= w);
}

proof fn lemma_clean_samples(w: Seq<SampleView>)
    ensures
        clean_samples(w) >= 1 <==> exists|i: int| 0 <= i < w.len() && (#[trigger] w[i]).h264_excess_refs == Some(false),
        clean_samples(w) >= 2 <==> exists|i: int, j: int|
            0 <= i < j < w.len() && (#[trigger] w[i]).h264_excess_refs == Some(false) && (#[trigger] w[j]).h264_excess_refs
                == Some(false),
    decreases w.len(),
{
    if w.len() > 0 {
        let t = w.drop_last();
        let n = w.len() - 1;
        lemma_clean_samples(t);
        assert(forall|i: int| 0 <= i < n ==> t[i] == #[trigger] w[i]);
        if exists|i: int| 0 <= i < t.len() && (#[trigger] t[i]).h264_excess_refs == Some(false) {
            let i = choose|i: int| 0 <= i < t.len() && (#[trigger] t[i]).h264_excess_refs == Some(false);
            assert(w[i].h264_excess_refs == Some(false));
            if w.last().h264_excess_refs == Some(false) {
                assert(w[n].h264_excess_refs == Some(false));
            }
        }
        if w.last().h264_excess_refs == Some(false) {
            assert(w[n].h264_excess_refs == Some(false));
        }
        if clean_samples(t) >= 2 {
            let (i, j) = choose|i: int, j: int|
                0 <= i < j < t.len() && (#[trigger] t[i]).h264_excess_refs == Some(false) && (#[trigger] t[j]).h264_excess_refs
                    == Some(false);
            assert(w[i].h264_excess_refs == Some(false) && w[j].h264_excess_refs == Some(false));
        }
        if exists|i: int, j: int|
            0 <= i < j < w.len() && (#[trigger] w[i]).h264_excess_refs == Some(false) && (#[trigger] w[j]).h264_excess_refs
                == Some(false) {
            let (i, j) = choose|i: int, j: int|
                0 <= i < j < w.len() && (#[trigger] w[i]).h264_excess_refs == Some(false) && (#[trigger] w[j]).h264_excess_refs
                    == Some(false);
            assert(t[i].h264_excess_refs == Some(false));
            if j < n {
                assert(t[j].h264_excess_refs == Some(false));
            }
        }
        if exists|i: int| 0 <= i < w.len() && (#[trigger] w[i]).h264_excess_refs == Some(false) {
            let i = choose|i: int| 0 <= i < w.len() && (#[trigger] w[i]).h264_excess_refs == Some(false);
            if i < n {
                assert(t[i].h264_excess_refs == Some(false));
            }
        }
    }
}

/// One sample with references to too many frames is enough to know of them; that there are none
/// takes two samples without, and none with; and only H.264 is asked.
pub proof fn law_excess_is_told_by_the_samples(w: Seq<SampleView>, i: int, j: int)
    requires
        0 <= i < j < w.len(),
    ensures
        w.last().codec == Some("h264"@) && w[i].h264_excess_refs == Some(true) ==> quality(w)->0.h264_excess_refs_state
            == ExcessRefsState::On,
        w.last().codec == Some("h264"@) && w[j].h264_excess_refs == Some(true) ==> quality(w)->0.h264_excess_refs_state
            == ExcessRefsState::On,
        w.last().codec == Some("h264"@) && w[i].h264_excess_refs == Some(false) && w[j].h264_excess_refs == Some(false) && (
        forall|k: int| 0 <= k < w.len() ==> (#[trigger] w[k]).h264_excess_refs != Some(true))
            ==> quality(w)->0.h264_excess_refs_state == ExcessRefsState::Off,
        w.last().codec == Some("h264"@) && (forall|k: int| 0 <= k < w.len() ==> (#[trigger] w[k]).h264_excess_refs is None)
            ==> quality(w)->0.h264_excess_refs_state == ExcessRefsState::Unknown,
        w.last().codec matches Some(c) && c != "h264"@ ==> quality(w)->0.h264_excess_refs_state
            == ExcessRefsState::NotApplicable,
        w.last().codec is None ==> quality(w)->0.h264_excess_refs_state == ExcessRefsState::Unknown,
{
    lemma_clean_samples(w);
}

proof fn lemma_contains_adds(a: Seq<Seq<char>>, b: Seq<Seq<char>>, t: Seq<char>)
    ensures
        (a + b).contains(t) <==> a.contains(t) || b.contains(t),
{
    if a.contains(t) {
        let i = choose|i: int| 0 <= i < a.len() && a[i] == t;
        assert((a + b)[i] == t);
    }
    if b.contains(t) {
        let i = choose|i: int| 0 <= i < b.len() && b[i] == t;
        assert((a + b)[a.len() + i] == t);
    }
    if (a + b).contains(t) {
        let i = choose|i: int| 0 <= i < (a + b).len() && (a + b)[i] == t;
        if i < a.len() {
            assert(a[i] == t);
        } else {
            assert(b[i - a.len()] == t);
        }
    }
}

proof fn lemma_only_if(c: bool, s: Seq<char>, t: Seq<char>)
    ensures
        only_if(c, s).contains(t) <==> c && s == t,
{
    if c {
        assert(only_if(c, s)[0] == s);
    }
}

/// What a stream asks of clients: by its kind, its codec, its depth, its subtitles and what is
/// known of its references; and nothing else.
pub proof fn law_streams_ask_for_what_they_are(s: SampleView, state: ExcessRefsState, t: Seq<char>)
    ensures
        ({
            let tv = s.sample_rate_hz is None && !(s.codec == Some("aac"@) && s.width == 0);
            let hevc = s.codec == Some("hevc"@) || s.codec == Some("h265"@);
            variant_caps(s, state).contains(t) <==> {
                ||| t == "hls"@
                ||| tv && (t == "aac"@ || t == "live_video_hls"@)
                ||| !tv && t == "live_audio_only_hls"@
                ||| s.dvb_unsafe == Some(true) && t == "dvb_safe"@
                ||| tv && s.codec == Some("h264"@) && t == "h264"@
                ||| s.codec == Some("h264"@) && state != ExcessRefsState::Off && state != ExcessRefsState::NotApplicable && t
                    == "h264_excess_refs"@
                ||| tv && hevc && t == "hevc"@
                ||| tv && hevc && ten_bit(s.pix_fmt) && t == "hevc_main10"@
            }
        }),
{
    let tv = !of_radio(s);
    let h264 = s.codec == Some("h264"@);
    let hevc = s.codec == Some("hevc"@) || s.codec == Some("h265"@);
    let guarded = h264 && (state == ExcessRefsState::On || state == ExcessRefsState::Unknown);
    let a = only_if(tv, "aac"@);
    let b = a + only_if(s.dvb_unsafe == Some(true), "dvb_safe"@);
    let c = b + only_if(tv && h264, "h264"@);
    let d = c + only_if(guarded, "h264_excess_refs"@);
    let e = d + only_if(tv && hevc, "hevc"@);
    let f = e + only_if(tv && hevc && ten_bit(s.pix_fmt), "hevc_main10"@);
    let g = f + only_if(true, "hls"@);
    let h = g + only_if(!tv, "live_audio_only_hls"@);
    lemma_only_if(tv, "aac"@, t);
    lemma_only_if(s.dvb_unsafe == Some(true), "dvb_safe"@, t);
    lemma_only_if(tv && h264, "h264"@, t);
    lemma_only_if(guarded, "h264_excess_refs"@, t);
    lemma_only_if(tv && hevc, "hevc"@, t);
    lemma_only_if(tv && hevc && ten_bit(s.pix_fmt), "hevc_main10"@, t);
    lemma_only_if(true, "hls"@, t);
    lemma_only_if(!tv, "live_audio_only_hls"@, t);
    lemma_only_if(tv, "live_video_hls"@, t);
    lemma_contains_adds(a, only_if(s.dvb_unsafe == Some(true), "dvb_safe"@), t);
    lemma_contains_adds(b, only_if(tv && h264, "h264"@), t);
    lemma_contains_adds(c, only_if(guarded, "h264_excess_refs"@), t);
    lemma_contains_adds(d, only_if(tv && hevc, "hevc"@), t);
    lemma_contains_adds(e, only_if(tv && hevc && ten_bit(s.pix_fmt), "hevc_main10"@), t);
    lemma_contains_adds(f, only_if(true, "hls"@), t);
    lemma_contains_adds(g, only_if(!tv, "live_audio_only_hls"@), t);
    lemma_contains_adds(h, only_if(tv, "live_video_hls"@), t);
}

/// While nothing is decided of an H.264 stream's references, clients are asked to put up
/// with too many of them.
pub proof fn law_excess_refs_fail_closed(w: Seq<SampleView>)
    requires
        w.len() > 0,
        w.last().codec == Some("h264"@),
        !(clean_samples(w) >= 2 && !found_excess(w)),
    ensures
        quality(w)->0.caps_required.contains("h264_excess_refs"@),
{
    let last = w.last();
    let state = excess_state(w, last.codec);
    let a = only_if(!of_radio(last), "aac"@) + only_if(last.dvb_unsafe == Some(true), "dvb_safe"@) + only_if(
        !of_radio(last),
        "h264"@,
    );
    let caps = variant_caps(last, state);
    assert(caps[a.len() as int] == "h264_excess_refs"@);
}

// --- The store -------------------------------------------------------------------------

/// The windows of all streams on all hosts.
pub struct MeasuredStore {
    pub table: Table<StreamHost, MeasuredEntry>,
    /// Changes with every push.
    pub generation: u64,
    /// Something changed since the store was last written down.
    pub dirty: bool,
}

impl View for MeasuredStore {
    type V = Map<(u64, Seq<char>), Seq<SampleView>>;

    open spec fn view(&self) -> Map<(u64, Seq<char>), Seq<SampleView>> {
        self.table@.map_values(|e: MeasuredEntry| e@)
    }
}

/// The window of a stream on a host; an empty one where there is none.
pub open spec fn window(m: Map<(u64, Seq<char>), Seq<SampleView>>, stream_id: u64, host: Seq<char>) -> Seq<SampleView> {
    if m.contains_key((stream_id, host)) {
        m[(stream_id, host)]
    } else {
        Seq::empty()
    }
}

/// A stream id and a host.
pub type Key = (u64, String);

/// What a list of entries holds; of two for one key the later.
pub open spec fn stored(v: Seq<(Key, MeasuredEntry)>) -> Map<(u64, Seq<char>), Seq<SampleView>>
    decreases v.len(),
{
    if v.len() == 0 {
        Map::empty()
    } else {
        stored(v.drop_last()).insert(v.last().0@, v.last().1@)
    }
}

impl Ranked for (Key, MeasuredEntry) {
    /// By stream id, then by host.
    open spec fn rank(&self) -> Seq<int> {
        seq![self.0.0 as int] + codes(self.0.1@)
    }

    fn precedes(&self, other: &Self) -> (r: bool) {
        proof {
            assert(self.rank().skip(1) =~= codes(self.0.1@));
            assert(other.rank().skip(1) =~= codes(other.0.1@));
        }
        self.0.0 < other.0.0 || (self.0.0 == other.0.0 && text_before(&chars_of(&self.0.1), &chars_of(&other.0.1)))
    }
}

impl MeasuredStore {
    pub open spec fn wf(&self) -> bool {
        self.table.wf()
    }

    pub fn new() -> (r: Self)
        ensures
            r.wf(),
            r@ == Map::<(u64, Seq<char>), Seq<SampleView>>::empty(),
            r.generation == 0,
            !r.dirty,
    {
        let r = MeasuredStore { table: Table::new(), generation: 0, dirty: false };
        proof {
            assert(r@ =~= Map::<(u64, Seq<char>), Seq<SampleView>>::empty());
        }
        r
    }

    /// The store that a list of entries holds.
    pub fn from_entries(entries: Vec<(Key, MeasuredEntry)>) -> (r: Self)
        ensures
            r.wf(),
            r@ == stored(entries@),
            r.generation == 0,
            !r.dirty,
    {
        let mut r = MeasuredStore::new();
        let ghost all = entries@;
        for e in it: entries
            invariant
                it.seq() == all,
                r.wf(),
                r@ == stored(all.take(it.index())),
                r.generation == 0,
                !r.dirty,
        {
            let ghost k = it.index();
            let ghost was = r@;
            proof {
                assert(all.take(k + 1).drop_last() =~= all.take(k));
            }
            let (key, samples) = e;
            r.table.insert(StreamHost { stream_id: key.0, host: key.1 }, samples);
            proof {
                assert(r@ =~= was.insert(key@, samples@));
            }
        }
        proof {
            assert(all.take(all.len() as int) =~= all);
        }
        r
    }

    fn entry(&self, stream_id: u64, host: &str) -> (r: Option<&MeasuredEntry>)
        ensures
            match r {
                Some(e) => self@.contains_key((stream_id, host@)) && self@[(stream_id, host@)] == e@,
                None => !self@.contains_key((stream_id, host@)),
            },
    {
        let key = StreamHost { stream_id, host: owned(host) };
        self.table.get(&key)
    }

    pub fn get(&self, stream_id: u64, host: &str) -> (r: Option<MeasuredQuality>)
        ensures
            match r {
                Some(q) => quality(window(self@, stream_id, host@)) == Some(q@),
                None => quality(window(self@, stream_id, host@)) is None,
            },
    {
        match self.entry(stream_id, host) {
            Some(e) => e.aggregate(),
            None => None,
        }
    }

    pub fn push(&mut self, stream_id: u64, host: &str, sample: Sample)
        requires
            old(self).wf(),
        ensures
            final(self).wf(),
            final(self)@ == old(self)@.insert(
                (stream_id, host@),
                pushed(window(old(self)@, stream_id, host@), sample@),
            ),
            final(self).generation == old(self).generation.wrapping_add(1),
            final(self).dirty,
    {
        let mut e = match self.entry(stream_id, host) {
            Some(e) => e.clone(),
            None => MeasuredEntry::default(),
        };
        e.push(sample);
        self.table.insert(StreamHost { stream_id, host: owned(host) }, e);
        self.generation = self.generation.wrapping_add(1);
        self.dirty = true;
        proof {
            assert(self@ =~= old(self)@.insert(
                (stream_id, host@),
                pushed(window(old(self)@, stream_id, host@), sample@),
            ));
        }
    }

    pub fn generation(&self) -> (r: u64)
        ensures
            r == self.generation,
    {
        self.generation
    }

    /// When the latest sample was taken.
    pub fn most_recent_at(&self, stream_id: u64, host: &str) -> (r: Option<i128>)
        ensures
            match r {
                Some(t) => window(self@, stream_id, host@).len() > 0 && window(self@, stream_id, host@).last().at == t,
                None => window(self@, stream_id, host@).len() == 0,
            },
    {
        match self.entry(stream_id, host) {
            Some(e) => if e.samples.len() > 0 {
                proof {
                    assert(e@.last() == e.samples@.last()@);
                }
                Some(e.samples[e.samples.len() - 1].at)
            } else {
                None
            },
            None => None,
        }
    }

    /// When the oldest sample of the window was taken.
    pub fn oldest_sample_at(&self, stream_id: u64, host: &str) -> (r: Option<i128>)
        ensures
            match r {
                Some(t) => window(self@, stream_id, host@).len() > 0 && window(self@, stream_id, host@)[0].at == t,
                None => window(self@, stream_id, host@).len() == 0,
            },
    {
        match self.entry(stream_id, host) {
            Some(e) => if e.samples.len() > 0 {
                proof {
                    assert(e@[0] == e.samples@[0]@);
                }
                Some(e.samples[0].at)
            } else {
                None
            },
            None => None,
        }
    }

    pub fn has_samples(&self, stream_id: u64, host: &str) -> (r: bool)
        ensures
            r == (window(self@, stream_id, host@).len() > 0),
    {
        match self.entry(stream_id, host) {
            Some(e) => e.samples.len() > 0,
            None => false,
        }
    }

    /// Every window once, by ascending stream id and host.
    pub fn snapshot(&self) -> (r: Vec<(Key, MeasuredEntry)>)
        requires
            self.wf(),
        ensures
            is_ranked(r@, own_rank()),
            forall|i: int, j: int| #![trigger r@[i], r@[j]] 0 <= i < j < r@.len() ==> r@[i].0@ != r@[j].0@,
            forall|i: int| 0 <= i < r@.len() ==> self@.contains_key((#[trigger] r@[i]).0@) && self@[r@[i].0@] == r@[i].1@,
            forall|k: (u64, Seq<char>)|
                self@.contains_key(k) ==> exists|i: int| 0 <= i < r@.len() && (#[trigger] r@[i]).0@ == k,
    {
        let mut list: Vec<(Key, MeasuredEntry)> = Vec::new();
        let ghost src = self.table.entries@;
        let mut i: usize = 0;
        while i < self.table.entries.len()
            invariant
                i <= src.len(),
                src == self.table.entries@,
                list@.len() == i,
                forall|j: int| 0 <= j < i ==> (#[trigger] list@[j]).0@ == src[j].0@ && list@[j].1@ == src[j].1@,
            decreases src.len() - i,
        {
            let (k, e) = &self.table.entries[i];
            list.push(((k.stream_id, k.host.clone()), e.clone()));
            i = i + 1;
        }
        let ghost all = list@;
        proof {
            law_ranked(all, own_rank());
            assert forall|i: int, j: int| 0 <= i < all.len() && 0 <= j < all.len() && i != j implies (#[trigger] all[i]).0@ != (
            #[trigger] all[j]).0@ by {
                assert(src[i].0@ != src[j].0@);
            }
        }
        let r = sort_ranked(list);
        proof {
            let key = |e: (Key, MeasuredEntry)| e.0@;
            lemma_ranked_distinct(all, own_rank(), key);
            assert forall|i: int| 0 <= i < r@.len() implies self@.contains_key((#[trigger] r@[i]).0@) && self@[r@[i].0@]
                == r@[i].1@ by {
                lemma_ranked_contains(all, own_rank(), r@[i]);
                assert(r@.contains(r@[i]));
                let j = choose|j: int| 0 <= j < all.len() && all[j] == r@[i];
                lemma_lookup_at(src, j);
            }
            assert forall|k: (u64, Seq<char>)| self@.contains_key(k) implies exists|i: int|
                0 <= i < r@.len() && (#[trigger] r@[i]).0@ == k by {
                lemma_lookup(src, k);
                let j = choose|j: int| 0 <= j < src.len() && (#[trigger] src[j]).0@ == k;
                lemma_ranked_contains(all, own_rank(), all[j]);
                assert(all.contains(all[j]));
                let i = choose|i: int| 0 <= i < r@.len() && r@[i] == all[j];
                assert(r@[i].0@ == k);
            }
        }
        r
    }
}

/// What a store holds, written down and read back, is what it held.
pub proof fn law_store_round_trip(m: Map<(u64, Seq<char>), Seq<SampleView>>, list: Seq<(Key, MeasuredEntry)>)
    requires
        forall|i: int, j: int| #![trigger list[i], list[j]] 0 <= i < j < list.len() ==> list[i].0@ != list[j].0@,
        forall|i: int| 0 <= i < list.len() ==> m.contains_key((#[trigger] list[i]).0@) && m[list[i].0@] == list[i].1@,
        forall|k: (u64, Seq<char>)|
            m.contains_key(k) ==> exists|i: int| 0 <= i < list.len() && (#[trigger] list[i]).0@ == k,
    ensures
        stored(list) == m,
{
    lemma_stored(list);
    assert(stored(list) =~= m);
}

proof fn lemma_stored(list: Seq<(Key, MeasuredEntry)>)
    requires
        forall|i: int, j: int| #![trigger list[i], list[j]] 0 <= i < j < list.len() ==> list[i].0@ != list[j].0@,
    ensures
        forall|i: int|
            0 <= i < list.len() ==> stored(list).contains_key((#[trigger] list[i]).0@) && stored(list)[list[i].0@]
                == list[i].1@,
        forall|k: (u64, Seq<char>)|
            stored(list).contains_key(k) ==> exists|i: int| 0 <= i < list.len() && (#[trigger] list[i]).0@ == k,
    decreases list.len(),
{
    if list.len() > 0 {
        let t = list.drop_last();
        lemma_stored(t);
        assert forall|i: int| 0 <= i < list.len() implies stored(list).contains_key((#[trigger] list[i]).0@)
            && stored(list)[list[i].0@] == list[i].1@ by {
            if i < t.len() {
                assert(t[i] == list[i]);
                assert(list[i].0@ != list[list.len() - 1].0@);
            }
        }
        assert forall|k: (u64, Seq<char>)| stored(list).contains_key(k) implies exists|i: int|
            0 <= i < list.len() && (#[trigger] list[i]).0@ == k by {
            if k == list.last().0@ {
                assert(list[list.len() - 1].0@ == k);
            } else {
                assert(stored(t).contains_key(k));
                let i = choose|i: int| 0 <= i < t.len() && (#[trigger] t[i]).0@ == k;
                assert(list[i] == t[i]);
            }
        }
    }
}

// --- What is being watched ---------------------------------------------------------------

/// What is known so far of one play.
#[derive(Debug)]
pub struct InProgress {
    pub width: Option<u32>,
    pub height: Option<u32>,
    pub codec: Option<String>,
    pub pix_fmt: Option<String>,
    pub color_transfer: Option<String>,
    pub framerate: Option<Single>,
    /// A moving average, in kilobits per second.
    pub bitrate_ewma_kbps: Option<Single>,
    pub dvb_unsafe: Option<bool>,
    pub sample_rate_hz: Option<u32>,
    pub audio_channels: Option<u8>,
    pub h264_excess_refs: Option<bool>,
    /// On a clock that does not go back, in nanoseconds.
    pub last_activity: Option<u64>,
}

/// The contents of an `InProgress`.
pub struct ProgressView {
    pub width: Option<u32>,
    pub height: Option<u32>,
    pub codec: Option<Seq<char>>,
    pub pix_fmt: Option<Seq<char>>,
    pub color_transfer: Option<Seq<char>>,
    pub framerate: Option<Single>,
    pub bitrate_ewma_kbps: Option<Single>,
    pub dvb_unsafe: Option<bool>,
    pub sample_rate_hz: Option<u32>,
    pub audio_channels: Option<u8>,
    pub h264_excess_refs: Option<bool>,
    pub last_activity: Option<u64>,
}

impl View for InProgress {
    type V = ProgressView;

    open spec fn view(&self) -> ProgressView {
        ProgressView {
            width: self.width,
            height: self.height,
            codec: opt_text(self.codec),
            pix_fmt: opt_text(self.pix_fmt),
            color_transfer: opt_text(self.color_transfer),
            framerate: self.framerate,
            bitrate_ewma_kbps: self.bitrate_ewma_kbps,
            dvb_unsafe: self.dvb_unsafe,
            sample_rate_hz: self.sample_rate_hz,
            audio_channels: self.audio_channels,
            h264_excess_refs: self.h264_excess_refs,
            last_activity: self.last_activity,
        }
    }
}

impl Clone for InProgress {
    fn clone(&self) -> (r: Self)
        ensures
            r@ == self@,
    {
        InProgress {
            width: self.width,
            height: self.height,
            codec: self.codec.clone(),
            pix_fmt: self.pix_fmt.clone(),
            color_transfer: self.color_transfer.clone(),
            framerate: self.framerate,
            bitrate_ewma_kbps: self.bitrate_ewma_kbps,
            dvb_unsafe: self.dvb_unsafe,
            sample_rate_hz: self.sample_rate_hz,
            audio_channels: self.audio_channels,
            h264_excess_refs: self.h264_excess_refs,
            last_activity: self.last_activity,
        }
    }
}

/// Nothing is known.
pub open spec fn no_progress() -> ProgressView {
    ProgressView {
        width: None,
        height: None,
        codec: None,
        pix_fmt: None,
        color_transfer: None,
        framerate: None,
        bitrate_ewma_kbps: None,
        dvb_unsafe: None,
        sample_rate_hz: None,
        audio_channels: None,
        h264_excess_refs: None,
        last_activity: None,
    }
}

impl Default for InProgress {
    fn default() -> (r: Self)
        ensures
            r@ == no_progress(),
    {
        InProgress {
            width: None,
            height: None,
            codec: None,
            pix_fmt: None,
            color_transfer: None,
            framerate: None,
            bitrate_ewma_kbps: None,
            dvb_unsafe: None,
            sample_rate_hz: None,
            audio_channels: None,
            h264_excess_refs: None,
            last_activity: None,
        }
    }
}

/// The sample that a play comes to; none where neither picture nor sound was looked at.
pub open spec fn sample_of(p: ProgressView, at: int) -> Option<SampleView> {
    if p.width is None && p.sample_rate_hz is None {
        None
    } else {
        Some(
            SampleView {
                at,
                source: SampleSource::PerPlay,
                width: match p.width {
                    Some(w) => w,
                    None => 0,
                },
                height: match p.height {
                    Some(h) => h,
                    None => 0,
                },
                codec: p.codec,
                pix_fmt: p.pix_fmt,
                color_transfer: p.color_transfer,
                framerate: p.framerate,
                bitrate_kbps: match p.bitrate_ewma_kbps {
                    Some(b) => Some(b.rounded()),
                    None => None,
                },
                dvb_unsafe: p.dvb_unsafe,
                sample_rate_hz: p.sample_rate_hz,
                audio_channels: p.audio_channels,
                h264_excess_refs: p.h264_excess_refs,
            },
        )
    }
}

/// The average with one more value, which counts for three tenths, in single precision.
pub open spec fn smoothed(average: Option<Single>, kbps: Single) -> Single {
    match average {
        Some(prev) => sum(product(Single { bits: THREE_TENTHS }, kbps), product(Single { bits: SEVEN_TENTHS }, prev)),
        None => kbps,
    }
}

/// The bits of three tenths.
pub const THREE_TENTHS: u32 = 0x3e99_999a;

/// The bits of one less three tenths.
pub const SEVEN_TENTHS: u32 = 0x3f33_3333;

/// The first of two that is there.
pub open spec fn first_of<T>(a: Option<T>, b: Option<T>) -> Option<T> {
    if a is Some {
        a
    } else {
        b
    }
}

fn keep_first<T>(a: Option<T>, b: Option<T>) -> (r: Option<T>)
    ensures
        r == first_of(a, b),
{
    match a {
        Some(x) => Some(x),
        None => b,
    }
}

impl InProgress {
    pub fn touch(&mut self, now: u64)
        ensures
            final(self)@ == (ProgressView { last_activity: Some(now), ..old(self)@ }),
    {
        self.last_activity = Some(now);
    }

    /// The sample taken at `at`, in nanoseconds since the Unix epoch.
    pub fn into_sample(self, at: i128) -> (r: Option<Sample>)
        ensures
            match r {
                Some(s) => sample_of(self@, at as int) == Some(s@),
                None => sample_of(self@, at as int) is None,
            },
    {
        if self.width.is_none() && self.sample_rate_hz.is_none() {
            return None;
        }
        let bitrate_kbps = match self.bitrate_ewma_kbps {
            Some(b) => Some(b.to_whole()),
            None => None,
        };
        Some(
            Sample {
                at,
                source: SampleSource::PerPlay,
                width: self.width.unwrap_or(0),
                height: self.height.unwrap_or(0),
                codec: self.codec,
                pix_fmt: self.pix_fmt,
                color_transfer: self.color_transfer,
                framerate: self.framerate,
                bitrate_kbps,
                dvb_unsafe: self.dvb_unsafe,
                sample_rate_hz: self.sample_rate_hz,
                audio_channels: self.audio_channels,
                h264_excess_refs: self.h264_excess_refs,
            },
        )
    }
}

/// What a look at the picture tells.
#[derive(Debug)]
pub struct PictureFacts {
    pub width: Option<u32>,
    pub height: Option<u32>,
    pub codec: Option<String>,
    pub pix_fmt: Option<String>,
    pub color_transfer: Option<String>,
    pub framerate: Option<Single>,
    pub dvb_unsafe: Option<bool>,
}

/// A play after a look at the picture: what was known stays.
pub open spec fn with_picture(p: ProgressView, f: PictureFacts, now: u64) -> ProgressView {
    ProgressView {
        width: first_of(p.width, f.width),
        height: first_of(p.height, f.height),
        codec: first_of(p.codec, opt_text(f.codec)),
        pix_fmt: first_of(p.pix_fmt, opt_text(f.pix_fmt)),
        color_transfer: first_of(p.color_transfer, opt_text(f.color_transfer)),
        framerate: first_of(p.framerate, f.framerate),
        dvb_unsafe: first_of(p.dvb_unsafe, f.dvb_unsafe),
        last_activity: Some(now),
        ..p
    }
}

/// The plays under way.
pub struct PerPlayAccumulator {
    pub table: Table<StreamHost, InProgress>,
}

impl View for PerPlayAccumulator {
    type V = Map<(u64, Seq<char>), ProgressView>;

    open spec fn view(&self) -> Map<(u64, Seq<char>), ProgressView> {
        self.table@.map_values(|p: InProgress| p@)
    }
}

/// The play of a stream on a host.
pub open spec fn progress(m: Map<(u64, Seq<char>), ProgressView>, stream_id: u64, host: Seq<char>) -> ProgressView {
    if m.contains_key((stream_id, host)) {
        m[(stream_id, host)]
    } else {
        no_progress()
    }
}

/// Thirty seconds.
pub const QUIESCE_NANOS: u64 = 30000000000;

/// Nothing happened for long enough.
pub open spec fn quiet(p: ProgressView, now: u64) -> bool {
    match p.last_activity {
        Some(t) => span(now, t) >= QUIESCE_NANOS,
        None => false,
    }
}

/// The plays that are over and come to a sample.
pub open spec fn finished(m: Map<(u64, Seq<char>), ProgressView>, now: u64) -> Set<(u64, Seq<char>)> {
    m.dom().filter(|k: (u64, Seq<char>)| quiet(m[k], now) && sample_of(m[k], 0) is Some)
}

/// A store with a sample for each of the plays `done`.
pub open spec fn committed(
    store: Map<(u64, Seq<char>), Seq<SampleView>>,
    m: Map<(u64, Seq<char>), ProgressView>,
    done: Set<(u64, Seq<char>)>,
    at: int,
) -> Map<(u64, Seq<char>), Seq<SampleView>> {
    Map::new(
        |k: (u64, Seq<char>)| store.contains_key(k) || done.contains(k),
        |k: (u64, Seq<char>)|
            if done.contains(k) {
                pushed(window(store, k.0, k.1), sample_of(m[k], at)->0)
            } else {
                store[k]
            },
    )
}

impl PerPlayAccumulator {
    pub open spec fn wf(&self) -> bool {
        self.table.wf()
    }

    pub fn new() -> (r: Self)
        ensures
            r.wf(),
            r@ == Map::<(u64, Seq<char>), ProgressView>::empty(),
    {
        let r = PerPlayAccumulator { table: Table::new() };
        proof {
            assert(r@ =~= Map::<(u64, Seq<char>), ProgressView>::empty());
        }
        r
    }

    /// What is known of a play.
    pub fn peek(&self, stream_id: u64, host: &str) -> (r: InProgress)
        ensures
            r@ == progress(self@, stream_id, host@),
    {
        let key = StreamHost { stream_id, host: owned(host) };
        match self.table.get(&key) {
            Some(p) => p.clone(),
            None => InProgress::default(),
        }
    }

    fn put(&mut self, stream_id: u64, host: &str, p: InProgress)
        requires
            old(self).wf(),
        ensures
            final(self).wf(),
            final(self)@ == old(self)@.insert((stream_id, host@), p@),
    {
        self.table.insert(StreamHost { stream_id, host: owned(host) }, p);
        proof {
            assert(self@ =~= old(self)@.insert((stream_id, host@), p@));
        }
    }

    pub fn note_classification(&mut self, stream_id: u64, host: &str, facts: PictureFacts, now: u64)
        requires
            old(self).wf(),
        ensures
            final(self).wf(),
            final(self)@ == old(self)@.insert(
                (stream_id, host@),
                with_picture(progress(old(self)@, stream_id, host@), facts, now),
            ),
    {
        let p = self.peek(stream_id, host);
        let next = InProgress {
            width: keep_first(p.width, facts.width),
            height: keep_first(p.height, facts.height),
            codec: keep_first(p.codec, facts.codec),
            pix_fmt: keep_first(p.pix_fmt, facts.pix_fmt),
            color_transfer: keep_first(p.color_transfer, facts.color_transfer),
            framerate: keep_first(p.framerate, facts.framerate),
            bitrate_ewma_kbps: p.bitrate_ewma_kbps,
            dvb_unsafe: keep_first(p.dvb_unsafe, facts.dvb_unsafe),
            sample_rate_hz: p.sample_rate_hz,
            audio_channels: p.audio_channels,
            h264_excess_refs: p.h264_excess_refs,
            last_activity: Some(now),
        };
        self.put(stream_id, host, next);
    }

    pub fn note_audio_classification(
        &mut self,
        stream_id: u64,
        host: &str,
        sample_rate_hz: Option<u32>,
        audio_channels: Option<u8>,
        now: u64,
    )
        requires
            old(self).wf(),
        ensures
            final(self).wf(),
            ({
                let p = progress(old(self)@, stream_id, host@);
                final(self)@ == old(self)@.insert(
                    (stream_id, host@),
                    ProgressView {
                        sample_rate_hz: first_of(p.sample_rate_hz, sample_rate_hz),
                        audio_channels: first_of(p.audio_channels, audio_channels),
                        last_activity: Some(now),
                        ..p
                    },
                )
            }),
    {
        let mut p = self.peek(stream_id, host);
        p.sample_rate_hz = keep_first(p.sample_rate_hz, sample_rate_hz);
        p.audio_channels = keep_first(p.audio_channels, audio_channels);
        p.touch(now);
        self.put(stream_id, host, p);
    }

    /// Takes a segment's bit rate, in kilobits per second, into the average.
    pub fn note_segment_kbps(&mut self, stream_id: u64, host: &str, kbps: Single, now: u64)
        requires
            old(self).wf(),
        ensures
            final(self).wf(),
            ({
                let p = progress(old(self)@, stream_id, host@);
                final(self)@ == old(self)@.insert(
                    (stream_id, host@),
                    ProgressView {
                        bitrate_ewma_kbps: Some(smoothed(p.bitrate_ewma_kbps, kbps)),
                        last_activity: Some(now),
                        ..p
                    },
                )
            }),
    {
        let mut p = self.peek(stream_id, host);
        p.bitrate_ewma_kbps = match p.bitrate_ewma_kbps {
            Some(prev) => {
                let new = Single { bits: THREE_TENTHS }.times(kbps);
                Some(new.plus(Single { bits: SEVEN_TENTHS }.times(prev)))
            },
            None => Some(kbps),
        };
        p.touch(now);
        self.put(stream_id, host, p);
    }

    /// Takes out the plays in which nothing happened for thirty seconds, and puts a sample
    /// for each into the store, taken at `at`. Gives back how many samples those are.
    pub fn commit(&mut self, store: &mut MeasuredStore, now: u64, at: i128) -> (r: usize)
        requires
            old(self).wf(),
            old(store).wf(),
        ensures
            final(self).wf(),
            final(store).wf(),
            final(self)@ == old(self)@.remove_keys(
                old(self)@.dom().filter(|k: (u64, Seq<char>)| quiet(old(self)@[k], now)),
            ),
            final(store)@ == committed(old(store)@, old(self)@, finished(old(self)@, now), at as int),
            finished(old(self)@, now).len() == r,
            final(store).generation == (old(store).generation + r) % 0x1_0000_0000_0000_0000,
            final(store).dirty == (old(store).dirty || r > 0),
    {
        let ghost src = self.table.entries@;
        let ghost m = self@;
        let ghost before = *store;
        let ghost keep = |k: (u64, Seq<char>), p: InProgress| !quiet(p@, now);
        let ghost mut done: Seq<(u64, Seq<char>)> = Seq::empty();
        let mut entries: Vec<(StreamHost, InProgress)> = Vec::new();
        std::mem::swap(&mut self.table.entries, &mut entries);
        let mut left: Vec<(StreamHost, InProgress)> = Vec::new();
        let mut r: usize = 0;
        proof {
            assert(src.take(0) =~= Seq::empty());
            assert(store@ =~= committed(before@, m, done.to_set(), at as int));
            assert forall|i: int| 0 <= i < src.len() implies m.contains_key((#[trigger] src[i]).0@) && m[src[i].0@]
                == src[i].1@ by {
                lemma_lookup_at(src, i);
            }
            assert(src.len() == entries.len());
        }
        for e in it: entries
            invariant
                it.seq() == src,
                distinct_keys(src),
                src.len() <= usize::MAX,
                forall|i: int| 0 <= i < src.len() ==> m.contains_key((#[trigger] src[i]).0@) && m[src[i].0@] == src[i].1@,
                keep == |k: (u64, Seq<char>), p: InProgress| !quiet(p@, now),
                left@ == kept(src.take(it.index()), keep),
                store.wf(),
                store@ == committed(before@, m, done.to_set(), at as int),
                r == done.len(),
                r <= it.index(),
                done.no_duplicates(),
                forall|k: (u64, Seq<char>)| #[trigger]
                    done.contains(k) <==> exists|i: int|
                        0 <= i < it.index() && (#[trigger] src[i]).0@ == k && quiet(src[i].1@, now) && sample_of(
                            src[i].1@,
                            0,
                        ) is Some,
                store.generation == (before.generation + r) % 0x1_0000_0000_0000_0000,
                store.dirty == (before.dirty || r > 0),
        {
            let ghost n = it.index();
            let ghost was = done;
            let ghost held = store@;
            proof {
                assert(src.take(n + 1).drop_last() =~= src.take(n));
                assert(src[n] == e);
            }
            let (k, p) = e;
            let idle = match p.last_activity {
                Some(t) => now >= t && now - t >= QUIESCE_NANOS,
                None => false,
            };
            if !idle {
                left.push((k, p));
            } else {
                let ghost key = k@;
                let ghost pv = p@;
                match p.into_sample(at) {
                    Some(s) => {
                        store.push(k.stream_id, &k.host, s);
                        r = r + 1;
                        proof {
                            assert(!was.contains(key)) by {
                                if was.contains(key) {
                                    let i = choose|i: int| 0 <= i < n && (#[trigger] src[i]).0@ == key;
                                    assert(src[i].0@ != src[n].0@);
                                }
                            }
                            done = done.push(key);
                            assert forall|q: (u64, Seq<char>)| #[trigger] done.contains(q) == (was.contains(q) || q == key) by {
                                if was.contains(q) {
                                    let i = choose|i: int| 0 <= i < was.len() && was[i] == q;
                                    assert(done[i] == q);
                                }
                                assert(done[was.len() as int] == key);
                            }
                            assert(done.to_set() =~= was.to_set().insert(key));
                            assert(window(held, key.0, key.1) == window(before@, key.0, key.1));
                            assert(store@ =~= committed(before@, m, done.to_set(), at as int));
                        }
                    },
                    None => {},
                }
            }
        }
        proof {
            assert(src.take(src.len() as int) =~= src);
            lemma_kept(src, keep);
        }
        self.table = Table { entries: left };
        proof {
            let fin = finished(m, now);
            assert forall|k: (u64, Seq<char>)| fin.contains(k) == done.contains(k) by {
                lemma_lookup(src, k);
                if fin.contains(k) {
                    let i = choose|i: int| 0 <= i < src.len() && (#[trigger] src[i]).0@ == k;
                    assert(m[src[i].0@] == src[i].1@);
                }
            }
            assert(fin =~= done.to_set());
            done.unique_seq_to_set();
            assert(self@ =~= m.remove_keys(m.dom().filter(|k: (u64, Seq<char>)| quiet(m[k], now))));
        }
        r
    }
}

impl Default for PerPlayAccumulator {
    fn default() -> (r: Self)
        ensures
            r.wf(),
            r@ == Map::<(u64, Seq<char>), ProgressView>::empty(),
    {
        PerPlayAccumulator::new()
    }
}

/// A play comes to a sample where its picture or its sound was looked at, and the sample tells what
/// was seen.
pub proof fn law_plays_come_to_samples(p: ProgressView, at: int)
    ensures
        p.width is None && p.sample_rate_hz is None ==> sample_of(p, at) is None,
        p.width is Some || p.sample_rate_hz is Some ==> ({
            let s = sample_of(p, at)->0;
            &&& sample_of(p, at) is Some
            &&& s.at == at
            &&& s.source == SampleSource::PerPlay
            &&& p.width is Some ==> p.width == Some(s.width)
            &&& p.height is Some ==> p.height == Some(s.height)
            &&& p.width is None ==> s.width == 0
            &&& p.height is None ==> s.height == 0
            &&& s.codec == p.codec
            &&& s.pix_fmt == p.pix_fmt
            &&& s.color_transfer == p.color_transfer
            &&& s.framerate == p.framerate
            &&& s.dvb_unsafe == p.dvb_unsafe
            &&& s.sample_rate_hz == p.sample_rate_hz
            &&& s.audio_channels == p.audio_channels
            &&& s.h264_excess_refs == p.h264_excess_refs
            &&& p.bitrate_ewma_kbps is None ==> s.bitrate_kbps is None
            &&& p.bitrate_ewma_kbps matches Some(b) ==> s.bitrate_kbps == Some(b.rounded())
        }),
{
}

/// A play is over after thirty seconds in which nothing happened; then its sample is kept, with
/// those of the plays before, and the samples of other streams stay.
pub proof fn law_plays_are_kept_when_they_are_over(
    store: Map<(u64, Seq<char>), Seq<SampleView>>,
    m: Map<(u64, Seq<char>), ProgressView>,
    k: (u64, Seq<char>),
    now: u64,
    at: int,
)
    requires
        m.contains_key(k),
        m[k].width is Some,
        m[k].last_activity matches Some(t) && t <= now,
    ensures
        now - m[k].last_activity->0 >= 30 * 1000000000 ==> ({
            let after = committed(store, m, finished(m, now), at);
            &&& after.contains_key(k)
            &&& after[k].len() > 0
            &&& Some(after[k].last()) == sample_of(m[k], at)
        }),
        now - m[k].last_activity->0 < 30 * 1000000000 ==> !finished(m, now).contains(k) && (store.contains_key(k) ==> committed(
            store,
            m,
            finished(m, now),
            at,
        )[k] == store[k]),
{
}

/// The first value is the average. What was counts for more than what comes: the share of the value
/// before is at least that of the same value now.
pub proof fn law_older_values_weigh_more(k: Single)
    requires
        k.finite(),
    ensures
        smoothed(None, k) == k,
        smoothed(Some(Single { bits: 0 }), k).bits <= smoothed(Some(k), Single { bits: 0 }).bits <= k.bits,
{
    let (three, seven, one) = (Single { bits: THREE_TENTHS }, Single { bits: SEVEN_TENTHS }, Single { bits: ONE });
    lemma_product_rises(three, seven, k);
    lemma_product_rises(seven, one, k);
    law_one_times_a_number(k);
    lemma_times_nothing(three);
    lemma_times_nothing(seven);
    lemma_sum_with_nothing(product(three, k));
    lemma_sum_with_nothing(product(seven, k));
}

/// A window holds the latest five samples.
pub proof fn law_windows_hold_five(w: Seq<SampleView>, s: SampleView)
    requires
        w.len() <= 5,
    ensures
        w.len() < 5 ==> pushed(w, s) == w.push(s),
        w.len() == 5 ==> pushed(w, s) == w.skip(1).push(s),
{
}

} // verus!
