//! MPEG transport streams: what a chunk carries, and the chunk without its subtitles.
use std::collections::HashMap;
use vstd::prelude::*;
use vstd::slice::{slice_subrange, slice_to_vec};
use crate::order::{Ranked, is_ranked, law_ranked, lex_lt, own_rank, sort_ranked};
use crate::single::Single;
use crate::sps::{SpsCodec, SpsInfo, SpsView, find_sps_nal, h264_sps, hevc_sps, parse_h264_sps};
use crate::sps::{parse_hevc_sps, sps_payload};
use crate::text::{opt_text, owned};

verus! {

broadcast use vstd::std_specs::hash::group_hash_axioms;

#[derive(Debug, Clone, Copy, PartialEq, Eq, Structural)]
pub enum VideoCodec {
    H264,
    Hevc,
    Other,
}

/// What a chunk of a transport stream carries.
#[derive(Debug)]
pub struct Classification {
    pub video_codec: Option<VideoCodec>,
    pub video_pid: Option<u16>,
    pub pmt_pid: Option<u16>,
    pub pcr_pid: Option<u16>,
    pub subtitle_pids: Vec<u16>,
    /// The clock rides on a subtitle PID, so the subtitles cannot be stripped.
    pub dvb_unsafe: bool,
    pub width: Option<u32>,
    pub height: Option<u32>,
    pub framerate: Option<Single>,
    pub pix_fmt: Option<String>,
    pub color_transfer: Option<String>,
}

/// The contents of a `Classification`.
pub struct ClassView {
    pub video_codec: Option<VideoCodec>,
    pub video_pid: Option<u16>,
    pub pmt_pid: Option<u16>,
    pub pcr_pid: Option<u16>,
    pub subtitle_pids: Seq<u16>,
    pub dvb_unsafe: bool,
    pub width: Option<u32>,
    pub height: Option<u32>,
    pub framerate: Option<Single>,
    pub pix_fmt: Option<Seq<char>>,
    pub color_transfer: Option<Seq<char>>,
}

impl View for Classification {
    type V = ClassView;

    open spec fn view(&self) -> ClassView {
        ClassView {
            video_codec: self.video_codec,
            video_pid: self.video_pid,
            pmt_pid: self.pmt_pid,
            pcr_pid: self.pcr_pid,
            subtitle_pids: self.subtitle_pids@,
            dvb_unsafe: self.dvb_unsafe,
            width: self.width,
            height: self.height,
            framerate: self.framerate,
            pix_fmt: opt_text(self.pix_fmt),
            color_transfer: opt_text(self.color_transfer),
        }
    }
}

impl Clone for Classification {
    fn clone(&self) -> (r: Self)
        ensures
            r@ == self@,
    {
        Classification {
            video_codec: self.video_codec,
            video_pid: self.video_pid,
            pmt_pid: self.pmt_pid,
            pcr_pid: self.pcr_pid,
            subtitle_pids: slice_to_vec(&self.subtitle_pids),
            dvb_unsafe: self.dvb_unsafe,
            width: self.width,
            height: self.height,
            framerate: self.framerate,
            pix_fmt: self.pix_fmt.clone(),
            color_transfer: self.color_transfer.clone(),
        }
    }
}

/// Whether `pids` holds `pid`.
pub fn has_pid(pids: &[u16], pid: u16) -> (r: bool)
    ensures
        r == pids@.contains(pid),
{
    let mut i: usize = 0;
    while i < pids.len()
        invariant
            i <= pids@.len(),
            forall|j: int| 0 <= j < i ==> pids@[j] != pid,
        decreases pids@.len() - i,
    {
        if pids[i] == pid {
            return true;
        }
        i = i + 1;
    }
    false
}

/// The subtitle PIDs that may be taken out: all of them, or none where the clock rides
/// on one of them.
pub open spec fn strippable(pids: Seq<u16>, pcr_pid: Option<u16>) -> Seq<u16> {
    match pcr_pid {
        Some(pcr) if pids.contains(pcr) => Seq::empty(),
        _ => pids,
    }
}

impl Classification {
    /// The codec's lower-case name.
    pub fn codec_string(&self) -> (r: Option<String>)
        ensures
            opt_text(r) == match self.video_codec {
                Some(VideoCodec::H264) => Some("h264"@),
                Some(VideoCodec::Hevc) => Some("hevc"@),
                _ => None,
            },
    {
        match self.video_codec {
            Some(VideoCodec::H264) => Some(owned("h264")),
            Some(VideoCodec::Hevc) => Some(owned("hevc")),
            _ => None,
        }
    }

    pub fn strippable_subtitle_pids(&self) -> (r: Vec<u16>)
        ensures
            r@ == strippable(self.subtitle_pids@, self.pcr_pid),
    {
        if let Some(pcr) = self.pcr_pid {
            if has_pid(&self.subtitle_pids, pcr) {
                return Vec::new();
            }
        }
        slice_to_vec(&self.subtitle_pids)
    }
}

/// What is known of each stream, by stream id.
pub struct StreamClassifier {
    pub inner: HashMap<u64, Classification>,
}

impl View for StreamClassifier {
    type V = Map<u64, ClassView>;

    open spec fn view(&self) -> Map<u64, ClassView> {
        self.inner@.map_values(|c: Classification| c@)
    }
}

impl StreamClassifier {
    pub fn new() -> (r: Self)
        ensures
            r@ == Map::<u64, ClassView>::empty(),
    {
        let r = StreamClassifier { inner: HashMap::new() };
        proof {
            assert(r@ =~= Map::<u64, ClassView>::empty());
        }
        r
    }

    pub fn get(&self, stream_id: u64) -> (r: Option<Classification>)
        ensures
            match r {
                Some(c) => self@.contains_key(stream_id) && self@[stream_id] == c@,
                None => !self@.contains_key(stream_id),
            },
    {
        match self.inner.get(&stream_id) {
            Some(c) => Some(c.clone()),
            None => None,
        }
    }

    pub fn set(&mut self, stream_id: u64, c: Classification)
        ensures
            final(self)@ == old(self)@.insert(stream_id, c@),
    {
        self.inner.insert(stream_id, c);
        proof {
            assert(self@ =~= old(self)@.insert(stream_id, c@));
        }
    }

    /// Every stream and what is known of it, by ascending stream id.
    pub fn snapshot(&self) -> (r: Vec<(u64, Classification)>)
        ensures
            r@.len() == self@.dom().len(),
            forall|i: int|
                0 <= i < r@.len() ==> self@.contains_key((#[trigger] r@[i]).0) && self@[r@[i].0] == r@[i].1@,
            forall|i: int, j: int| 0 <= i < j < r@.len() ==> (#[trigger] r@[i]).0 < (#[trigger] r@[j]).0,
    {
        let mut ids: Vec<u64> = Vec::new();
        for k in it: self.inner.keys()
            invariant
                it.seq().no_duplicates(),
                it.seq().len() == self.inner@.dom().len(),
                it.seq().unref().to_set() == self.inner@.dom(),
                ids@.len() == it.index(),
                forall|i: int| 0 <= i < it.index() ==> #[trigger] ids@[i] == *it.seq()[i],
                forall|i: int| 0 <= i < it.index() ==> self.inner@.contains_key(#[trigger] ids@[i]),
        {
            proof {
                assert(it.seq().unref()[it.index()] == *k);
                assert(it.seq().unref().to_set().contains(*k));
            }
            ids.push(*k);
        }
        let ghost keys = ids@;
        proof {
            assert(keys.no_duplicates());
            assert(keys.len() == self.inner@.dom().len());
        }
        let sorted = sort_ranked(ids);
        proof {
            law_ranked(keys, own_rank());
        }
        let mut out: Vec<(u64, Classification)> = Vec::new();
        let mut i: usize = 0;
        while i < sorted.len()
            invariant
                i <= sorted@.len(),
                sorted@.len() == keys.len(),
                sorted@.to_multiset() == keys.to_multiset(),
                forall|j: int| 0 <= j < keys.len() ==> self.inner@.contains_key(#[trigger] keys[j]),
                out@.len() == i,
                forall|j: int|
                    0 <= j < i ==> (#[trigger] out@[j]).0 == sorted@[j] && self@.contains_key(out@[j].0)
                        && self@[out@[j].0] == out@[j].1@,
            decreases sorted@.len() - i,
        {
            let id = sorted[i];
            proof {
                broadcast use vstd::seq_lib::group_to_multiset_ensures;

                assert(sorted@.to_multiset().contains(id));
                assert(keys.contains(id));
            }
            if let Some(c) = self.get(id) {
                out.push((id, c));
            }
            i = i + 1;
        }
        proof {
            lemma_sorted_distinct(keys, sorted@);
            assert(self@.dom() =~= self.inner@.dom());
        }
        out
    }

    pub fn clear(&mut self)
        ensures
            final(self)@ == Map::<u64, ClassView>::empty(),
    {
        self.inner.clear();
        proof {
            assert(self@ =~= Map::<u64, ClassView>::empty());
        }
    }
}

proof fn lemma_sorted_distinct(keys: Seq<u64>, sorted: Seq<u64>)
    requires
        keys.no_duplicates(),
        sorted.to_multiset() == keys.to_multiset(),
        is_ranked(sorted, own_rank()),
    ensures
        forall|i: int, j: int| 0 <= i < j < sorted.len() ==> sorted[i] < sorted[j],
{
    broadcast use vstd::seq_lib::group_to_multiset_ensures;

    keys.lemma_multiset_has_no_duplicates();
    assert forall|x: u64| sorted.to_multiset().contains(x) implies sorted.to_multiset().count(x) == 1 by {}
    sorted.lemma_multiset_has_no_duplicates_conv();
    assert forall|i: int, j: int| 0 <= i < j < sorted.len() implies sorted[i] < sorted[j] by {
        use_rank(sorted[i], sorted[j]);
        assert(!lex_lt(Ranked::rank(&sorted[j]), Ranked::rank(&sorted[i])));
    }
}

proof fn use_rank(a: u64, b: u64)
    ensures
        lex_lt(Ranked::rank(&b), Ranked::rank(&a)) == (b < a),
{
    reveal_with_fuel(lex_lt, 2);
}

// --- Packets -----------------------------------------------------------------------

pub const TS_PACKET_LEN: usize = 188;

pub const SYNC: u8 = 0x47;

/// A run of packets may start at `s`: a sync byte there, and another one a packet later
/// unless the bytes end with that packet.
pub open spec fn aligned_at(b: Seq<u8>, s: int) -> bool {
    &&& 0 <= s
    &&& s + 188 <= b.len()
    &&& b[s] == SYNC
    &&& s + 188 < b.len() ==> b[s + 188] == SYNC
}

/// The first start of packets at or behind `s`, among the first 512 bytes.
pub open spec fn alignment_from(b: Seq<u8>, s: int) -> Option<int>
    decreases 512 - s,
{
    if s < 0 || s >= 512 || s >= b.len() {
        None
    } else if aligned_at(b, s) {
        Some(s)
    } else {
        alignment_from(b, s + 1)
    }
}

/// Where the packets start; some streams have an opaque prefix.
pub open spec fn alignment(b: Seq<u8>) -> Option<int> {
    alignment_from(b, 0)
}

pub fn ts_alignment(bytes: &[u8]) -> (r: Option<usize>)
    ensures
        match r {
            Some(s) => alignment(bytes@) == Some(s as int) && aligned_at(bytes@, s as int),
            None => alignment(bytes@) is None,
        },
{
    let mut s: usize = 0;
    while s < 512 && s < bytes.len()
        invariant
            s <= 512,
            alignment(bytes@) == alignment_from(bytes@, s as int),
        decreases 512 - s,
    {
        if bytes[s] == SYNC && bytes.len() - s >= 188 && (bytes.len() - s == 188 || bytes[s + 188] == SYNC) {
            return Some(s);
        }
        s = s + 1;
    }
    None
}

/// The 13-bit PID in two bytes.
pub open spec fn pid_of(hi: u8, lo: u8) -> u16 {
    ((hi % 32) * 256 + lo) as u16
}

/// The 12-bit length in two bytes.
pub open spec fn len_of(hi: u8, lo: u8) -> int {
    (hi % 16) * 256 + lo
}

fn read_pid(hi: u8, lo: u8) -> (r: u16)
    ensures
        r == pid_of(hi, lo),
{
    assert((((hi & 0x1f) as u16) << 8) | (lo as u16) == (hi % 32) * 256 + lo) by (bit_vector);
    (((hi & 0x1f) as u16) << 8) | (lo as u16)
}

fn read_len(hi: u8, lo: u8) -> (r: usize)
    ensures
        r == len_of(hi, lo),
        r < 4096,
{
    assert((((hi & 0x0f) as u16) << 8) | (lo as u16) == (hi % 16) * 256 + lo) by (bit_vector);
    ((((hi & 0x0f) as u16) << 8) | (lo as u16)) as usize
}

/// The header of one packet, and where its payload starts.
pub struct Packet {
    pub pid: u16,
    pub payload_unit_start: bool,
    pub has_payload: bool,
    pub payload_offset: usize,
}

/// Where the payload of the packet at the start of `b` begins: behind the header and the
/// adaptation field.
pub open spec fn payload_offset(b: Seq<u8>) -> int {
    if b[3] & 0x20 != 0 {
        5 + b[4]
    } else {
        4
    }
}

/// The packet at the start of `b`; `None` for fewer bytes, another first byte, or an
/// adaptation field that is longer than the packet.
pub open spec fn packet(b: Seq<u8>) -> Option<Packet> {
    if b.len() < 188 || b[0] != SYNC || payload_offset(b) > 188 {
        None
    } else {
        Some(
            Packet {
                pid: pid_of(b[1], b[2]),
                payload_unit_start: b[1] & 0x40 != 0,
                has_payload: b[3] & 0x10 != 0,
                payload_offset: payload_offset(b) as usize,
            },
        )
    }
}

fn has_adaptation(b3: u8) -> (r: bool)
    ensures
        r == (b3 & 0x20 != 0),
{
    assert((((b3 >> 4) & 3) & 2 != 0) == (b3 & 0x20 != 0)) by (bit_vector);
    ((b3 >> 4) & 3) & 2 != 0
}

pub fn read_packet(bytes: &[u8]) -> (r: Option<Packet>)
    ensures
        r == packet(bytes@),
        r matches Some(p) ==> p.payload_offset <= 188,
{
    if bytes.len() < TS_PACKET_LEN || bytes[0] != SYNC {
        return None;
    }
    let (b1, b3): (u8, u8) = (bytes[1], bytes[3]);
    assert((((b3 >> 4) & 3) & 1 != 0) == (b3 & 0x10 != 0)) by (bit_vector);
    let payload_offset: usize = if has_adaptation(b3) {
        let off: usize = 5 + bytes[4] as usize;
        if off > TS_PACKET_LEN {
            return None;
        }
        off
    } else {
        4
    };
    Some(
        Packet {
            pid: read_pid(b1, bytes[2]),
            payload_unit_start: b1 & 0x40 != 0,
            has_payload: ((b3 >> 4) & 3) & 1 != 0,
            payload_offset,
        },
    )
}

// --- Tables --------------------------------------------------------------------------

/// The section of the table `id` that the payload `p` of a packet starts: its start, and
/// the end of its last byte.
pub open spec fn section(p: Seq<u8>, id: u8) -> Option<(int, int)> {
    let start = 1 + p[0];
    let end = start + 3 + len_of(p[start + 1], p[start + 2]);
    if p.len() == 0 || start + 12 > p.len() || p[start] != id || end > p.len() {
        None
    } else {
        Some((start, end))
    }
}

fn find_section(p: &[u8], id: u8) -> (r: Option<(usize, usize)>)
    ensures
        match r {
            Some((s, e)) => section(p@, id) == Some((s as int, e as int)) && s + 12 <= p@.len() && e <= p@.len() && s + 3
                <= e && 1 <= s <= 256 && e == s + 3 + len_of(p@[s + 1], p@[s + 2]),
            None => section(p@, id) is None,
        },
{
    if p.len() == 0 {
        return None;
    }
    let start: usize = 1 + p[0] as usize;
    if start + 12 > p.len() || p[start] != id {
        return None;
    }
    let end: usize = start + 3 + read_len(p[start + 1], p[start + 2]);
    if end > p.len() {
        return None;
    }
    Some((start, end))
}

/// The PID of the first program from `i` on whose number is not zero.
pub open spec fn program_pid(p: Seq<u8>, i: int, end: int) -> Option<u16>
    decreases end - i,
{
    if i + 4 > end {
        None
    } else if p[i] != 0 || p[i + 1] != 0 {
        Some(pid_of(p[i + 2], p[i + 3]))
    } else {
        program_pid(p, i + 4, end)
    }
}

/// The PID of the program map table that a program association table names.
pub open spec fn pat_pmt_pid(p: Seq<u8>) -> Option<u16> {
    match section(p, 0) {
        Some((start, end)) => program_pid(p, start + 8, end - 4),
        None => None,
    }
}

pub fn parse_pat_pmt_pid(payload: &[u8]) -> (r: Option<u16>)
    ensures
        r == pat_pmt_pid(payload@),
{
    let (start, end) = find_section(payload, 0)?;
    let crc_start: usize = end - 4;
    let mut i: usize = start + 8;
    while i <= crc_start && crc_start - i >= 4
        invariant
            crc_start <= payload@.len(),
            i <= 264 + payload@.len(),
            pat_pmt_pid(payload@) == program_pid(payload@, i as int, crc_start as int),
        decreases crc_start - i,
    {
        if payload[i] != 0 || payload[i + 1] != 0 {
            return Some(read_pid(payload[i + 2], payload[i + 3]));
        }
        i = i + 4;
    }
    None
}

/// An elementary stream in a program map table: its type, its PID and its descriptors.
pub struct EsEntry {
    pub stream_type: u8,
    pub pid: u16,
    pub descriptors: Vec<u8>,
}

/// The length of the entry that starts the bytes `e`, with its descriptors; `None` where
/// they do not hold it.
pub open spec fn entry_len(e: Seq<u8>) -> Option<int> {
    if e.len() < 5 || 5 + len_of(e[3], e[4]) > e.len() {
        None
    } else {
        Some(5 + len_of(e[3], e[4]))
    }
}

/// The entries in the bytes `e`, up to one that they do not hold: type, PID, descriptors.
pub open spec fn es_entries(e: Seq<u8>) -> Seq<(u8, u16, Seq<u8>)>
    decreases e.len(),
{
    match entry_len(e) {
        None => Seq::empty(),
        Some(n) => seq![(e[0], pid_of(e[1], e[2]), e.subrange(5, n))] + es_entries(e.skip(n)),
    }
}

/// The bytes of those entries in `e` whose PID is not among `pids`.
pub open spec fn kept_entries(e: Seq<u8>, pids: Seq<u16>) -> Seq<u8>
    decreases e.len(),
{
    match entry_len(e) {
        None => Seq::empty(),
        Some(n) => (if pids.contains(pid_of(e[1], e[2])) {
            Seq::empty()
        } else {
            e.take(n)
        }) + kept_entries(e.skip(n), pids),
    }
}

/// Where the entries of the program map table in the payload `p` start and end.
pub open spec fn pmt_entries_range(p: Seq<u8>) -> Option<(int, int)> {
    match section(p, 2) {
        Some((start, end)) => {
            let first = start + 12 + len_of(p[start + 10], p[start + 11]);
            if first > end - 4 {
                None
            } else {
                Some((first, end - 4))
            }
        },
        None => None,
    }
}

/// The program map table in the payload `p`: the PID of the clock, and the entries.
pub open spec fn pmt(p: Seq<u8>) -> Option<(u16, Seq<(u8, u16, Seq<u8>)>)> {
    match pmt_entries_range(p) {
        Some((first, last)) => {
            let start = 1 + p[0];
            Some((pid_of(p[start + 8], p[start + 9]), es_entries(p.subrange(first, last))))
        },
        None => None,
    }
}

pub open spec fn entry_views(v: Seq<EsEntry>) -> Seq<(u8, u16, Seq<u8>)> {
    Seq::new(v.len(), |i: int| (v[i].stream_type, v[i].pid, v[i].descriptors@))
}

pub struct PmtSummary {
    pub pcr_pid: u16,
    pub streams: Vec<EsEntry>,
}

pub fn parse_pmt(payload: &[u8]) -> (r: Option<PmtSummary>)
    ensures
        match r {
            Some(s) => pmt(payload@) == Some((s.pcr_pid, entry_views(s.streams@))),
            None => pmt(payload@) is None,
        },
{
    let (start, end) = find_section(payload, 2)?;
    let pcr_pid = read_pid(payload[start + 8], payload[start + 9]);
    let first: usize = start + 12 + read_len(payload[start + 10], payload[start + 11]);
    let last: usize = end - 4;
    if first > last {
        return None;
    }
    let e = slice_subrange(payload, first, last);
    let mut streams: Vec<EsEntry> = Vec::new();
    let mut i: usize = 0;
    proof {
        assert(e@.skip(0) =~= e@);
        assert(entry_views(streams@) + es_entries(e@) =~= es_entries(e@));
    }
    while e.len() - i >= 5
        invariant_except_break
            entry_views(streams@) + es_entries(e@.skip(i as int)) == es_entries(e@),
        invariant
            i <= e@.len(),
        ensures
            entry_views(streams@) == es_entries(e@),
        decreases e@.len() - i,
    {
        let ghost rest = e@.skip(i as int);
        let n: usize = 5 + read_len(e[i + 3], e[i + 4]);
        if n > e.len() - i {
            proof {
                assert(es_entries(rest) =~= Seq::empty());
                assert(entry_views(streams@) + es_entries(rest) =~= entry_views(streams@));
            }
            break;
        }
        let ghost was = entry_views(streams@);
        streams.push(
            EsEntry {
                stream_type: e[i],
                pid: read_pid(e[i + 1], e[i + 2]),
                descriptors: slice_to_vec(slice_subrange(e, i + 5, i + n)),
            },
        );
        proof {
            assert(e@.subrange(i + 5, i + n) =~= rest.subrange(5, n as int));
            assert(entry_views(streams@) =~= was.push((rest[0], pid_of(rest[1], rest[2]), rest.subrange(5, n as int))));
            assert(rest.skip(n as int) =~= e@.skip(i + n));
            assert(entry_views(streams@) + es_entries(e@.skip(i + n)) =~= was + es_entries(rest));
        }
        i = i + n;
        proof {
            if e@.len() - i < 5 {
                assert(entry_views(streams@) + es_entries(e@.skip(i as int)) =~= entry_views(streams@));
            }
        }
    }
    Some(PmtSummary { pcr_pid, streams })
}

/// Among the descriptors in `d`, up to one that is cut off, one marks DVB subtitles.
pub open spec fn subtitling(d: Seq<u8>) -> bool
    decreases d.len(),
{
    if d.len() < 2 || 2 + d[1] > d.len() {
        false
    } else {
        d[0] == 0x59 || subtitling(d.skip(2 + d[1]))
    }
}

pub fn has_subtitling_descriptor(descriptors: &[u8]) -> (r: bool)
    ensures
        r == subtitling(descriptors@),
{
    let mut i: usize = 0;
    proof {
        assert(descriptors@.skip(0) =~= descriptors@);
    }
    while descriptors.len() - i >= 2
        invariant
            i <= descriptors@.len(),
            subtitling(descriptors@) == subtitling(descriptors@.skip(i as int)),
        decreases descriptors@.len() - i,
    {
        let len: usize = descriptors[i + 1] as usize;
        if 2 + len > descriptors.len() - i {
            return false;
        }
        if descriptors[i] == 0x59 {
            return true;
        }
        proof {
            assert(descriptors@.skip(i as int).skip(2 + len) =~= descriptors@.skip(i + 2 + len));
        }
        i = i + 2 + len;
    }
    false
}

/// The video codec of a stream type.
pub open spec fn video_type(stream_type: u8) -> Option<VideoCodec> {
    if stream_type == 0x1b {
        Some(VideoCodec::H264)
    } else if stream_type == 0x24 || stream_type == 0x27 {
        Some(VideoCodec::Hevc)
    } else if stream_type == 0x01 || stream_type == 0x02 || stream_type == 0x10 {
        Some(VideoCodec::Other)
    } else {
        None
    }
}

fn video_type_of(stream_type: u8) -> (r: Option<VideoCodec>)
    ensures
        r == video_type(stream_type),
{
    match stream_type {
        0x1b => Some(VideoCodec::H264),
        0x24 | 0x27 => Some(VideoCodec::Hevc),
        0x01 | 0x02 | 0x10 => Some(VideoCodec::Other),
        _ => None,
    }
}

/// Codec and PID of the first video stream among the entries.
pub open spec fn first_video(es: Seq<(u8, u16, Seq<u8>)>) -> Option<(VideoCodec, u16)>
    decreases es.len(),
{
    if es.len() == 0 {
        None
    } else {
        match first_video(es.drop_last()) {
            Some(v) => Some(v),
            None => match video_type(es.last().0) {
                Some(c) => Some((c, es.last().1)),
                None => None,
            },
        }
    }
}

/// An entry for private data with a subtitling descriptor.
pub open spec fn is_subtitle(e: (u8, u16, Seq<u8>)) -> bool {
    e.0 == 0x06 && subtitling(e.2)
}

/// The PIDs of the subtitle streams among the entries, in their order.
pub open spec fn subtitle_pids(es: Seq<(u8, u16, Seq<u8>)>) -> Seq<u16>
    decreases es.len(),
{
    if es.len() == 0 {
        Seq::empty()
    } else if is_subtitle(es.last()) {
        subtitle_pids(es.drop_last()).push(es.last().1)
    } else {
        subtitle_pids(es.drop_last())
    }
}

/// What a program map table tells of its stream.
pub open spec fn summary(pmt_pid: u16, pcr_pid: u16, es: Seq<(u8, u16, Seq<u8>)>) -> ClassView {
    ClassView {
        video_codec: match first_video(es) {
            Some((c, _)) => Some(c),
            None => None,
        },
        video_pid: match first_video(es) {
            Some((_, pid)) => Some(pid),
            None => None,
        },
        pmt_pid: Some(pmt_pid),
        pcr_pid: Some(pcr_pid),
        subtitle_pids: subtitle_pids(es),
        dvb_unsafe: subtitle_pids(es).contains(pcr_pid),
        width: None,
        height: None,
        framerate: None,
        pix_fmt: None,
        color_transfer: None,
    }
}

pub fn summarize(pmt_pid: u16, s: PmtSummary) -> (r: Classification)
    ensures
        r@ == summary(pmt_pid, s.pcr_pid, entry_views(s.streams@)),
{
    let ghost es = entry_views(s.streams@);
    let mut video_codec: Option<VideoCodec> = None;
    let mut video_pid: Option<u16> = None;
    let mut subs: Vec<u16> = Vec::new();
    let mut i: usize = 0;
    while i < s.streams.len()
        invariant
            i <= s.streams@.len(),
            es == entry_views(s.streams@),
            subs@ == subtitle_pids(es.take(i as int)),
            match first_video(es.take(i as int)) {
                Some((c, pid)) => video_codec == Some(c) && video_pid == Some(pid),
                None => video_codec is None && video_pid is None,
            },
        decreases s.streams@.len() - i,
    {
        let e = &s.streams[i];
        proof {
            assert(es.take(i + 1).drop_last() =~= es.take(i as int));
            assert(es.take(i + 1).last() == (e.stream_type, e.pid, e.descriptors@));
        }
        if let Some(c) = video_type_of(e.stream_type) {
            if video_codec.is_none() {
                video_codec = Some(c);
                video_pid = Some(e.pid);
            }
        }
        if e.stream_type == 0x06 && has_subtitling_descriptor(&e.descriptors) {
            subs.push(e.pid);
        }
        i = i + 1;
    }
    proof {
        assert(es.take(i as int) =~= es);
    }
    let dvb_unsafe = has_pid(&subs, s.pcr_pid);
    Classification {
        video_codec,
        video_pid,
        pmt_pid: Some(pmt_pid),
        pcr_pid: Some(s.pcr_pid),
        subtitle_pids: subs,
        dvb_unsafe,
        width: None,
        height: None,
        framerate: None,
        pix_fmt: None,
        color_transfer: None,
    }
}

// --- Chunks --------------------------------------------------------------------------

/// The bytes of the packet at `i`.
pub open spec fn packet_bytes(b: Seq<u8>, i: int) -> Seq<u8> {
    b.subrange(i, i + 188)
}

/// The PID of the program map table, from the first association table at or behind `i`
/// that names one; `None` where a packet on the way is malformed.
pub open spec fn pmt_pid_from(b: Seq<u8>, i: int) -> Option<u16>
    decreases b.len() - i,
{
    if i + 188 > b.len() {
        None
    } else {
        match packet(packet_bytes(b, i)) {
            None => None,
            Some(p) => {
                let named = pat_pmt_pid(packet_bytes(b, i).skip(p.payload_offset as int));
                if p.pid == 0 && p.payload_unit_start && p.has_payload && named is Some {
                    named
                } else {
                    pmt_pid_from(b, i + 188)
                }
            },
        }
    }
}

/// The first program map table at or behind `i` on the PID; `None` where a packet on the
/// way is malformed.
pub open spec fn pmt_from(b: Seq<u8>, i: int, pid: u16) -> Option<(u16, Seq<(u8, u16, Seq<u8>)>)>
    decreases b.len() - i,
{
    if i + 188 > b.len() {
        None
    } else {
        match packet(packet_bytes(b, i)) {
            None => None,
            Some(p) => {
                let table = pmt(packet_bytes(b, i).skip(p.payload_offset as int));
                if p.pid == pid && p.payload_unit_start && p.has_payload && table is Some {
                    table
                } else {
                    pmt_from(b, i + 188, pid)
                }
            },
        }
    }
}

/// Where the elementary stream starts in a payload that begins with a PES header.
pub open spec fn pes_offset(p: Seq<u8>) -> Option<int> {
    if p.len() < 9 || p[0] != 0 || p[1] != 0 || p[2] != 1 {
        None
    } else if p[6] & 0xc0 != 0x80 {
        Some(6)
    } else if 9 + p[8] <= p.len() {
        Some(9 + p[8])
    } else {
        None
    }
}

pub fn pes_payload_offset(payload: &[u8]) -> (r: Option<usize>)
    ensures
        match r {
            Some(o) => pes_offset(payload@) == Some(o as int) && o <= payload@.len(),
            None => pes_offset(payload@) is None,
        },
{
    if payload.len() < 9 || payload[0] != 0 || payload[1] != 0 || payload[2] != 1 {
        return None;
    }
    if payload[6] & 0xc0 != 0x80 {
        return Some(6);
    }
    let start: usize = 9 + payload[8] as usize;
    if start <= payload.len() {
        Some(start)
    } else {
        None
    }
}

/// How much of a video stream is looked at.
pub const MAX_ES: usize = 65536;

/// The elementary stream of the PID from the packet at `i` on, behind what was gathered
/// already; it stops at a malformed PES header and when there is enough. `None` where a
/// packet on the way is malformed.
pub open spec fn video_es(b: Seq<u8>, i: int, pid: u16, gathered: Seq<u8>) -> Option<Seq<u8>>
    decreases b.len() - i,
{
    if i + 188 > b.len() || gathered.len() >= MAX_ES {
        Some(gathered)
    } else {
        match packet(packet_bytes(b, i)) {
            None => None,
            Some(p) => {
                let payload = packet_bytes(b, i).skip(p.payload_offset as int);
                if p.pid == pid && p.has_payload {
                    if p.payload_unit_start {
                        match pes_offset(payload) {
                            Some(o) => video_es(b, i + 188, pid, gathered + payload.skip(o)),
                            None => Some(gathered),
                        }
                    } else {
                        video_es(b, i + 188, pid, gathered + payload)
                    }
                } else {
                    video_es(b, i + 188, pid, gathered)
                }
            },
        }
    }
}

/// The elementary stream of the PID from the packet at `start` on, where there is any.
pub open spec fn collected_es(b: Seq<u8>, start: int, pid: u16) -> Option<Seq<u8>> {
    match video_es(b, start, pid, Seq::empty()) {
        Some(es) if es.len() > 0 => Some(es),
        _ => None,
    }
}

fn push_bytes(out: &mut Vec<u8>, s: &[u8])
    ensures
        final(out)@ == old(out)@ + s@,
{
    let ghost was = out@;
    out.extend_from_slice(s);
    proof {
        assert(out@ =~= was + s@);
    }
}

pub fn collect_video_es(bytes: &[u8], start: usize, video_pid: u16) -> (r: Option<Vec<u8>>)
    requires
        start <= bytes@.len(),
    ensures
        match r {
            Some(v) => collected_es(bytes@, start as int, video_pid) == Some(v@),
            None => collected_es(bytes@, start as int, video_pid) is None,
        },
{
    let ghost b = bytes@;
    let ghost all = video_es(b, start as int, video_pid, Seq::empty());
    let mut out: Vec<u8> = Vec::new();
    let mut i: usize = start;
    while bytes.len() - i >= TS_PACKET_LEN && out.len() < MAX_ES
        invariant_except_break
            all == video_es(b, i as int, video_pid, out@),
        invariant
            b == bytes@,
            start <= i <= b.len(),
            all == video_es(b, start as int, video_pid, Seq::empty()),
        ensures
            all == Some(out@),
        decreases b.len() - i,
    {
        let pkt = slice_subrange(bytes, i, i + TS_PACKET_LEN);
        let p = read_packet(pkt)?;
        if p.pid == video_pid && p.has_payload {
            let payload = slice_subrange(pkt, p.payload_offset, TS_PACKET_LEN);
            proof {
                assert(payload@ =~= packet_bytes(b, i as int).skip(p.payload_offset as int));
            }
            if p.payload_unit_start {
                match pes_payload_offset(payload) {
                    Some(o) => {
                        let es = slice_subrange(payload, o, payload.len());
                        proof {
                            assert(es@ =~= payload@.skip(o as int));
                        }
                        push_bytes(&mut out, es);
                    },
                    None => {
                        break;
                    },
                }
            } else {
                push_bytes(&mut out, payload);
            }
        }
        i = i + TS_PACKET_LEN;
    }
    if out.len() == 0 {
        None
    } else {
        Some(out)
    }
}

/// The sequence parameter set of the video stream on the PID.
pub open spec fn picture_of(b: Seq<u8>, start: int, codec: VideoCodec, pid: u16) -> Option<SpsView> {
    match collected_es(b, start, pid) {
        None => None,
        Some(es) => match codec {
            VideoCodec::H264 => match sps_payload(es, SpsCodec::H264) {
                Some(r) => h264_sps(r),
                None => None,
            },
            VideoCodec::Hevc => match sps_payload(es, SpsCodec::Hevc) {
                Some(r) => hevc_sps(r),
                None => None,
            },
            VideoCodec::Other => None,
        },
    }
}

/// `c` with what the sequence parameter set of its video stream tells.
pub open spec fn with_picture(c: ClassView, b: Seq<u8>, start: int) -> ClassView {
    match (c.video_codec, c.video_pid) {
        (Some(codec), Some(pid)) => match picture_of(b, start, codec, pid) {
            Some(s) => ClassView {
                width: s.width,
                height: s.height,
                framerate: s.framerate,
                pix_fmt: s.pix_fmt,
                color_transfer: s.color_transfer,
                ..c
            },
            None => c,
        },
        _ => c,
    }
}

/// What the chunk `b` carries; `None` where its packets or tables cannot be found.
pub open spec fn ts_class(b: Seq<u8>) -> Option<ClassView> {
    match alignment(b) {
        None => None,
        Some(start) => match pmt_pid_from(b, start) {
            None => None,
            Some(pid) => match pmt_from(b, start, pid) {
                None => None,
                Some((pcr, es)) => Some(with_picture(summary(pid, pcr, es), b, start)),
            },
        },
    }
}

fn find_pmt_pid(bytes: &[u8], start: usize) -> (r: Option<u16>)
    requires
        start <= bytes@.len(),
    ensures
        r == pmt_pid_from(bytes@, start as int),
{
    let mut i: usize = start;
    while bytes.len() - i >= TS_PACKET_LEN
        invariant
            i <= bytes@.len(),
            pmt_pid_from(bytes@, start as int) == pmt_pid_from(bytes@, i as int),
        decreases bytes@.len() - i,
    {
        let pkt = slice_subrange(bytes, i, i + TS_PACKET_LEN);
        let p = read_packet(pkt)?;
        let payload = slice_subrange(pkt, p.payload_offset, TS_PACKET_LEN);
        proof {
            assert(payload@ =~= packet_bytes(bytes@, i as int).skip(p.payload_offset as int));
        }
        if p.pid == 0 && p.payload_unit_start && p.has_payload {
            if let Some(pid) = parse_pat_pmt_pid(payload) {
                return Some(pid);
            }
        }
        i = i + TS_PACKET_LEN;
    }
    None
}

fn find_pmt(bytes: &[u8], start: usize, pid: u16) -> (r: Option<PmtSummary>)
    requires
        start <= bytes@.len(),
    ensures
        match r {
            Some(s) => pmt_from(bytes@, start as int, pid) == Some((s.pcr_pid, entry_views(s.streams@))),
            None => pmt_from(bytes@, start as int, pid) is None,
        },
{
    let mut i: usize = start;
    while bytes.len() - i >= TS_PACKET_LEN
        invariant
            i <= bytes@.len(),
            pmt_from(bytes@, start as int, pid) == pmt_from(bytes@, i as int, pid),
        decreases bytes@.len() - i,
    {
        let pkt = slice_subrange(bytes, i, i + TS_PACKET_LEN);
        let p = read_packet(pkt)?;
        let payload = slice_subrange(pkt, p.payload_offset, TS_PACKET_LEN);
        proof {
            assert(payload@ =~= packet_bytes(bytes@, i as int).skip(p.payload_offset as int));
        }
        if p.pid == pid && p.payload_unit_start && p.has_payload {
            if let Some(s) = parse_pmt(payload) {
                return Some(s);
            }
        }
        i = i + TS_PACKET_LEN;
    }
    None
}

fn read_picture(bytes: &[u8], start: usize, codec: VideoCodec, pid: u16) -> (r: Option<SpsInfo>)
    requires
        start <= bytes@.len(),
    ensures
        match r {
            Some(s) => picture_of(bytes@, start as int, codec, pid) == Some(s@),
            None => picture_of(bytes@, start as int, codec, pid) is None,
        },
{
    let es = collect_video_es(bytes, start, pid)?;
    match codec {
        VideoCodec::H264 => {
            let rbsp = find_sps_nal(&es, SpsCodec::H264)?;
            parse_h264_sps(&rbsp)
        },
        VideoCodec::Hevc => {
            let rbsp = find_sps_nal(&es, SpsCodec::Hevc)?;
            parse_hevc_sps(&rbsp)
        },
        VideoCodec::Other => None,
    }
}

/// Classifies a chunk by its association and map tables, and by the sequence parameter
/// set of its video stream.
pub fn classify_ts_chunk(bytes: &[u8]) -> (r: Option<Classification>)
    ensures
        match r {
            Some(c) => ts_class(bytes@) == Some(c@),
            None => ts_class(bytes@) is None,
        },
{
    let start = ts_alignment(bytes)?;
    let pmt_pid = find_pmt_pid(bytes, start)?;
    let table = find_pmt(bytes, start, pmt_pid)?;
    let mut c = summarize(pmt_pid, table);
    if let (Some(codec), Some(pid)) = (c.video_codec, c.video_pid) {
        if let Some(s) = read_picture(bytes, start, codec, pid) {
            c.width = s.width;
            c.height = s.height;
            c.framerate = s.framerate;
            c.pix_fmt = s.pix_fmt;
            c.color_transfer = s.color_transfer;
        }
    }
    Some(c)
}

// --- CRC-32/MPEG-2 -------------------------------------------------------------------

/// One bit through the register: the generator is 0x04c11db7.
pub open spec fn crc_step(c: u32) -> u32 {
    if c & 0x8000_0000 != 0 {
        (c << 1) ^ 0x04c1_1db7
    } else {
        c << 1
    }
}

pub open spec fn crc_steps(c: u32, n: nat) -> u32
    decreases n,
{
    if n == 0 {
        c
    } else {
        crc_steps(crc_step(c), (n - 1) as nat)
    }
}

/// One byte through the register, most significant bit first.
pub open spec fn crc_byte(c: u32, b: u8) -> u32 {
    crc_steps(c ^ ((b as u32) << 24), 8)
}

/// CRC-32/MPEG-2 of the bytes: the register starts with all bits set.
pub open spec fn crc32(data: Seq<u8>) -> u32
    decreases data.len(),
{
    if data.len() == 0 {
        0xffff_ffff
    } else {
        crc_byte(crc32(data.drop_last()), data.last())
    }
}

pub fn crc32_mpeg2(data: &[u8]) -> (r: u32)
    ensures
        r == crc32(data@),
{
    let mut crc: u32 = 0xffff_ffff;
    let mut i: usize = 0;
    while i < data.len()
        invariant
            i <= data@.len(),
            crc == crc32(data@.take(i as int)),
        decreases data@.len() - i,
    {
        proof {
            assert(data@.take(i + 1).drop_last() =~= data@.take(i as int));
        }
        let ghost target = crc_byte(crc, data@[i as int]);
        crc = crc ^ ((data[i] as u32) << 24);
        let mut k: u32 = 0;
        while k < 8
            invariant
                k <= 8,
                crc_steps(crc, (8 - k) as nat) == target,
            decreases 8 - k,
        {
            if crc & 0x8000_0000 != 0 {
                crc = (crc << 1) ^ 0x04c1_1db7;
            } else {
                crc = crc << 1;
            }
            k = k + 1;
        }
        i = i + 1;
    }
    proof {
        assert(data@.take(i as int) =~= data@);
    }
    crc
}

/// The checksum as four bytes, most significant first.
pub open spec fn crc_bytes(c: u32) -> Seq<u8> {
    seq![(c >> 24) as u8, (c >> 16) as u8, (c >> 8) as u8, c as u8]
}

proof fn lemma_crc_shift(c: u32)
    ensures
        crc_byte(c, (c >> 24) as u8) == c << 8,
{
    let x = c ^ ((((c >> 24) as u8) as u32) << 24);
    assert(x & 0xff00_0000 == 0 && x << 8 == c << 8) by (bit_vector)
        requires
            x == c ^ ((((c >> 24) as u8) as u32) << 24),
    ;
    assert({
        &&& x & 0x8000_0000 == 0
        &&& (x << 1) & 0x8000_0000 == 0
        &&& (x << 2) & 0x8000_0000 == 0
        &&& (x << 3) & 0x8000_0000 == 0
        &&& (x << 4) & 0x8000_0000 == 0
        &&& (x << 5) & 0x8000_0000 == 0
        &&& (x << 6) & 0x8000_0000 == 0
        &&& (x << 7) & 0x8000_0000 == 0
        &&& (x << 1) << 1 == x << 2
        &&& (x << 2) << 1 == x << 3
        &&& (x << 3) << 1 == x << 4
        &&& (x << 4) << 1 == x << 5
        &&& (x << 5) << 1 == x << 6
        &&& (x << 6) << 1 == x << 7
        &&& (x << 7) << 1 == x << 8
    }) by (bit_vector)
        requires
            x & 0xff00_0000 == 0,
    ;
    reveal_with_fuel(crc_steps, 9);
}

/// Data followed by its checksum has the checksum zero.
pub proof fn law_crc_residue_is_zero(data: Seq<u8>)
    ensures
        crc32(data + crc_bytes(crc32(data))) == 0,
{
    let c = crc32(data);
    let s = crc_bytes(c);
    let d1 = data.push(s[0]);
    let d2 = d1.push(s[1]);
    let d3 = d2.push(s[2]);
    let d4 = d3.push(s[3]);
    assert(d4 =~= data + s);
    assert(d1.drop_last() =~= data && d2.drop_last() =~= d1 && d3.drop_last() =~= d2 && d4.drop_last() =~= d3);
    lemma_crc_shift(c);
    lemma_crc_shift(c << 8);
    lemma_crc_shift(c << 16);
    lemma_crc_shift(c << 24);
    assert(((c << 8) >> 24) as u8 == (c >> 16) as u8 && ((c << 16) >> 24) as u8 == (c >> 8) as u8 && ((c << 24) >> 24)
        as u8 == c as u8 && (c << 8) << 8 == c << 16 && (c << 16) << 8 == c << 24 && (c << 24) << 8 == 0) by (bit_vector);
    assert(crc32(d1) == crc_byte(c, s[0]));
    assert(crc32(d2) == crc_byte(c << 8, s[1]));
    assert(crc32(d3) == crc_byte(c << 16, s[2]));
    assert(crc32(d4) == crc_byte(c << 24, s[3]));
}

// --- Stripping subtitles ---------------------------------------------------------------

/// `s` filled up with `ff` bytes to one packet.
pub open spec fn stuffed(s: Seq<u8>) -> Seq<u8> {
    s + Seq::new((188 - s.len()) as nat, |i: int| 0xffu8)
}

/// The section of a map table with the entries `kept` in place of its own, without the
/// checksum.
pub open spec fn pmt_section(p: Seq<u8>, first: int, kept: Seq<u8>) -> Seq<u8> {
    let start = 1 + p[0];
    let n = first - start - 3 + kept.len() + 4;
    seq![p[start], (p[start + 1] & 0xf0) | ((n / 256) as u8), (n % 256) as u8] + p.subrange(start + 3, first) + kept
}

/// The packet `pkt` with the entries of the PIDs taken out of its map table and the
/// table's length and checksum made good; `None` where it holds no map table.
pub open spec fn rewritten_pmt(pkt: Seq<u8>, pids: Seq<u16>) -> Option<Seq<u8>> {
    let offset = payload_offset(pkt);
    let p = pkt.skip(offset);
    if offset >= 188 {
        None
    } else {
        match pmt_entries_range(p) {
            None => None,
            Some((first, last)) => {
                let s = pmt_section(p, first, kept_entries(p.subrange(first, last), pids));
                Some(stuffed(pkt.take(offset + 1 + p[0]) + s + crc_bytes(crc32(s))))
            },
        }
    }
}

proof fn lemma_kept_len(e: Seq<u8>, pids: Seq<u16>)
    ensures
        kept_entries(e, pids).len() <= e.len(),
    decreases e.len(),
{
    if let Some(n) = entry_len(e) {
        lemma_kept_len(e.skip(n), pids);
    }
}

fn keep_entries(e: &[u8], pids: &[u16]) -> (out: Vec<u8>)
    ensures
        out@ == kept_entries(e@, pids@),
{
    let mut out: Vec<u8> = Vec::new();
    let mut i: usize = 0;
    proof {
        assert(e@.skip(0) =~= e@);
        assert(out@ + kept_entries(e@, pids@) =~= kept_entries(e@, pids@));
    }
    while e.len() - i >= 5
        invariant_except_break
            out@ + kept_entries(e@.skip(i as int), pids@) == kept_entries(e@, pids@),
        invariant
            i <= e@.len(),
        ensures
            out@ == kept_entries(e@, pids@),
        decreases e@.len() - i,
    {
        let ghost rest = e@.skip(i as int);
        let ghost was = out@;
        let n: usize = 5 + read_len(e[i + 3], e[i + 4]);
        if n > e.len() - i {
            proof {
                assert(out@ + kept_entries(rest, pids@) =~= out@);
            }
            break;
        }
        let entry = slice_subrange(e, i, i + n);
        proof {
            assert(entry@ =~= rest.take(n as int));
            assert(rest.skip(n as int) =~= e@.skip(i + n));
        }
        if !has_pid(pids, read_pid(e[i + 1], e[i + 2])) {
            push_bytes(&mut out, entry);
        }
        proof {
            assert(out@ + kept_entries(e@.skip(i + n), pids@) =~= was + kept_entries(rest, pids@));
        }
        i = i + n;
        proof {
            if e@.len() - i < 5 {
                assert(out@ + kept_entries(e@.skip(i as int), pids@) =~= out@);
            }
        }
    }
    out
}

fn write_section(p: &[u8], start: usize, first: usize, kept: &[u8]) -> (out: Vec<u8>)
    requires
        start == 1 + p@[0],
        start + 12 <= first <= p@.len(),
        p@.len() <= 188,
        kept@.len() <= 188,
    ensures
        out@ == pmt_section(p@, first as int, kept@),
{
    let n: usize = first - start - 3 + kept.len() + 4;
    let (hi, lo): (u8, u8) = ((n / 256) as u8, (n % 256) as u8);
    let mut out: Vec<u8> = Vec::new();
    out.push(p[start]);
    out.push((p[start + 1] & 0xf0) | hi);
    out.push(lo);
    push_bytes(&mut out, slice_subrange(p, start + 3, first));
    push_bytes(&mut out, kept);
    proof {
        assert(out@ =~= pmt_section(p@, first as int, kept@));
    }
    out
}

fn write_packet(head: &[u8], section: &[u8]) -> (out: Vec<u8>)
    requires
        head@.len() + section@.len() + 4 <= 188,
    ensures
        out@ == stuffed(head@ + section@ + crc_bytes(crc32(section@))),
        out@.len() == 188,
{
    let crc = crc32_mpeg2(section);
    let mut out: Vec<u8> = slice_to_vec(head);
    push_bytes(&mut out, section);
    #[verifier::truncate]
    let (c3, c2, c1, c0): (u8, u8, u8, u8) = ((crc >> 24) as u8, (crc >> 16) as u8, (crc >> 8) as u8, crc as u8);
    out.push(c3);
    out.push(c2);
    out.push(c1);
    out.push(c0);
    let ghost full = head@ + section@ + crc_bytes(crc);
    proof {
        assert(out@ =~= full);
        assert(stuffed(full) =~= out@ + Seq::new((188 - out@.len()) as nat, |i: int| 0xffu8));
    }
    while out.len() < TS_PACKET_LEN
        invariant
            full.len() <= out@.len() <= 188,
            out@ + Seq::new((188 - out@.len()) as nat, |i: int| 0xffu8) == stuffed(full),
        decreases 188 - out@.len(),
    {
        let ghost was = out@;
        out.push(0xff);
        proof {
            assert(out@ + Seq::new((188 - out@.len()) as nat, |i: int| 0xffu8) =~= was + Seq::new(
                (188 - was.len()) as nat,
                |i: int| 0xffu8,
            ));
        }
    }
    proof {
        assert(out@ =~= stuffed(full));
    }
    out
}

pub fn rewrite_pmt_packet(pkt: &[u8], pids_to_strip: &[u16]) -> (r: Option<Vec<u8>>)
    requires
        pkt@.len() == 188,
    ensures
        match r {
            Some(v) => rewritten_pmt(pkt@, pids_to_strip@) == Some(v@) && v@.len() == 188,
            None => rewritten_pmt(pkt@, pids_to_strip@) is None,
        },
{
    let offset: usize = if has_adaptation(pkt[3]) {
        5 + pkt[4] as usize
    } else {
        4
    };
    if offset >= TS_PACKET_LEN {
        return None;
    }
    let p = slice_subrange(pkt, offset, TS_PACKET_LEN);
    proof {
        assert(p@ =~= pkt@.skip(offset as int));
    }
    let (start, end) = find_section(p, 2)?;
    let first: usize = start + 12 + read_len(p[start + 10], p[start + 11]);
    let last: usize = end - 4;
    if first > last {
        return None;
    }
    let entries = slice_subrange(p, first, last);
    let kept = keep_entries(entries, pids_to_strip);
    proof {
        lemma_kept_len(entries@, pids_to_strip@);
    }
    let section = write_section(p, start, first, &kept);
    let head = slice_subrange(pkt, 0, offset + start);
    proof {
        assert(head@ =~= pkt@.take(offset + start));
    }
    Some(write_packet(head, &section))
}

/// What becomes of the packets from `i` on; a packet without sync byte ends the work.
pub open spec fn stripped_from(b: Seq<u8>, i: int, pmt_pid: u16, pids: Seq<u16>) -> Seq<u8>
    decreases b.len() - i,
{
    if i + 188 > b.len() || b[i] != SYNC {
        b.skip(i)
    } else {
        let pkt = packet_bytes(b, i);
        let pid = pid_of(pkt[1], pkt[2]);
        let rest = stripped_from(b, i + 188, pmt_pid, pids);
        if pids.contains(pid) {
            rest
        } else if pid == pmt_pid && pkt[1] & 0x40 != 0 {
            match rewritten_pmt(pkt, pids) {
                Some(r) => r + rest,
                None => pkt + rest,
            }
        } else {
            pkt + rest
        }
    }
}

/// The chunk `b` without the packets of the PIDs, and without their entries in the map
/// tables on `pmt_pid`.
pub open spec fn stripped(b: Seq<u8>, pmt_pid: u16, pids: Seq<u16>) -> Seq<u8> {
    match alignment(b) {
        Some(start) if pids.len() > 0 => b.take(start) + stripped_from(b, start, pmt_pid, pids),
        _ => b,
    }
}

pub fn strip_subtitle_pids(bytes: &[u8], pmt_pid: u16, subtitle_pids: &[u16]) -> (r: Vec<u8>)
    ensures
        r@ == stripped(bytes@, pmt_pid, subtitle_pids@),
{
    if subtitle_pids.len() == 0 {
        return slice_to_vec(bytes);
    }
    let start = match ts_alignment(bytes) {
        Some(s) => s,
        None => {
            return slice_to_vec(bytes);
        },
    };
    let ghost b = bytes@;
    let mut out: Vec<u8> = slice_to_vec(slice_subrange(bytes, 0, start));
    let mut i: usize = start;
    proof {
        assert(out@ =~= b.take(start as int));
    }
    while bytes.len() - i >= TS_PACKET_LEN
        invariant
            b == bytes@,
            i <= b.len(),
            out@ + stripped_from(b, i as int, pmt_pid, subtitle_pids@) == stripped(b, pmt_pid, subtitle_pids@),
        decreases b.len() - i,
    {
        let pkt = slice_subrange(bytes, i, i + TS_PACKET_LEN);
        let ghost was = out@;
        let ghost rest = stripped_from(b, i + 188, pmt_pid, subtitle_pids@);
        if pkt[0] != SYNC {
            let tail = slice_subrange(bytes, i, bytes.len());
            proof {
                assert(tail@ =~= b.skip(i as int));
            }
            push_bytes(&mut out, tail);
            return out;
        }
        let pid = read_pid(pkt[1], pkt[2]);
        if !has_pid(subtitle_pids, pid) {
            if pid == pmt_pid && pkt[1] & 0x40 != 0 {
                match rewrite_pmt_packet(pkt, subtitle_pids) {
                    Some(r) => push_bytes(&mut out, &r),
                    None => push_bytes(&mut out, pkt),
                }
            } else {
                push_bytes(&mut out, pkt);
            }
        }
        proof {
            assert(out@ + rest =~= was + stripped_from(b, i as int, pmt_pid, subtitle_pids@));
        }
        i = i + TS_PACKET_LEN;
    }
    let tail = slice_subrange(bytes, i, bytes.len());
    proof {
        assert(tail@ =~= b.skip(i as int));
    }
    push_bytes(&mut out, tail);
    out
}

/// No packet at the start of `o`, up to the first without sync byte, is on one of the PIDs.
pub open spec fn free_of(o: Seq<u8>, pids: Seq<u16>) -> bool
    decreases o.len(),
{
    o.len() >= 188 && o[0] == SYNC ==> !pids.contains(pid_of(o[1], o[2])) && free_of(o.skip(188), pids)
}

proof fn lemma_rewritten_head(pkt: Seq<u8>, pids: Seq<u16>)
    requires
        pkt.len() == 188,
        rewritten_pmt(pkt, pids) is Some,
    ensures
        rewritten_pmt(pkt, pids)->0.len() == 188,
        forall|i: int| 0 <= i < 4 ==> (rewritten_pmt(pkt, pids)->0)[i] == pkt[i],
{
    let offset = payload_offset(pkt);
    let p = pkt.skip(offset);
    let (first, last) = pmt_entries_range(p)->0;
    lemma_kept_len(p.subrange(first, last), pids);
}

proof fn lemma_stripped_from_free(b: Seq<u8>, i: int, pmt_pid: u16, pids: Seq<u16>)
    requires
        0 <= i <= b.len(),
    ensures
        free_of(stripped_from(b, i, pmt_pid, pids), pids),
    decreases b.len() - i,
{
    if i + 188 <= b.len() && b[i] == SYNC {
        let pkt = packet_bytes(b, i);
        let rest = stripped_from(b, i + 188, pmt_pid, pids);
        lemma_stripped_from_free(b, i + 188, pmt_pid, pids);
        assert(pkt[0] == b[i] && pkt[1] == b[i + 1] && pkt[2] == b[i + 2]);
        let out = stripped_from(b, i, pmt_pid, pids);
        if !pids.contains(pid_of(pkt[1], pkt[2])) {
            if rewritten_pmt(pkt, pids) is Some {
                lemma_rewritten_head(pkt, pids);
                assert((rewritten_pmt(pkt, pids)->0 + rest).skip(188) =~= rest);
            }
            assert((pkt + rest).skip(188) =~= rest);
            assert(out.skip(188) == rest);
        }
    } else {
        let tail = b.skip(i);
        if tail.len() >= 188 {
            assert(tail[0] == b[i]);
        }
    }
}

/// After stripping, the packets from the alignment on are free of the stripped PIDs.
pub proof fn law_stripped_is_free(b: Seq<u8>, pmt_pid: u16, pids: Seq<u16>)
    requires
        pids.len() > 0,
        alignment(b) is Some,
    ensures
        free_of(stripped(b, pmt_pid, pids).skip(alignment(b)->0), pids),
{
    let start = alignment(b)->0;
    lemma_alignment(b, 0);
    lemma_stripped_from_free(b, start, pmt_pid, pids);
    assert(stripped(b, pmt_pid, pids).skip(start) =~= stripped_from(b, start, pmt_pid, pids));
}

proof fn lemma_alignment(b: Seq<u8>, s: int)
    ensures
        alignment_from(b, s) matches Some(k) ==> s <= k && aligned_at(b, k),
    decreases 512 - s,
{
    if 0 <= s < 512 && s < b.len() && !aligned_at(b, s) {
        lemma_alignment(b, s + 1);
    }
}

/// Without PIDs to strip nothing changes.
pub proof fn law_strip_nothing(b: Seq<u8>, pmt_pid: u16)
    ensures
        stripped(b, pmt_pid, Seq::empty()) == b,
{
}

/// The entries whose PID is not among `pids`.
pub open spec fn without(es: Seq<(u8, u16, Seq<u8>)>, pids: Seq<u16>) -> Seq<(u8, u16, Seq<u8>)>
    decreases es.len(),
{
    if es.len() == 0 {
        es
    } else if pids.contains(es[0].1) {
        without(es.skip(1), pids)
    } else {
        seq![es[0]] + without(es.skip(1), pids)
    }
}

proof fn lemma_kept_entries_parse(e: Seq<u8>, pids: Seq<u16>)
    ensures
        es_entries(kept_entries(e, pids)) == without(es_entries(e), pids),
    decreases e.len(),
{
    match entry_len(e) {
        None => {},
        Some(n) => {
            let rest = e.skip(n);
            lemma_kept_entries_parse(rest, pids);
            assert(es_entries(e).skip(1) =~= es_entries(rest));
            let kept = kept_entries(e, pids);
            if pids.contains(pid_of(e[1], e[2])) {
                assert(kept =~= kept_entries(rest, pids));
            } else {
                assert(kept.skip(n) =~= kept_entries(rest, pids));
                assert(kept.subrange(5, n) =~= e.subrange(5, n));
                assert(entry_len(kept) == Some(n));
            }
        },
    }
}

/// Where the parts of a rewritten map table are.
#[verifier::rlimit(30)]
proof fn lemma_rewritten_parts(pkt: Seq<u8>, pids: Seq<u16>)
    requires
        pkt.len() == 188,
        rewritten_pmt(pkt, pids) is Some,
    ensures
        ({
            let offset = payload_offset(pkt);
            let p = pkt.skip(offset);
            let (first, last) = pmt_entries_range(p)->0;
            let start = 1 + p[0];
            let kept = kept_entries(p.subrange(first, last), pids);
            let s = pmt_section(p, first, kept);
            let r = rewritten_pmt(pkt, pids)->0;
            let q = r.skip(offset);
            &&& payload_offset(r) == offset
            &&& q[0] == p[0]
            &&& section(q, 2) == Some((start, start + s.len() + 4))
            &&& start + 12 <= first
            &&& s.len() == first - start + kept.len()
            &&& pmt_entries_range(q) == Some((first, first + kept.len() as int))
            &&& q.subrange(first, first + kept.len()) == kept
            &&& q.subrange(start, start + s.len() + 4) == s + crc_bytes(crc32(s))
            &&& r.take(offset + start) == pkt.take(offset + start)
            &&& s.len() >= 12
            &&& s[1] == p[start + 1] & 0xf0
            &&& s[2] == s.len() + 4 - 3
            &&& first - start - 3 + kept.len() + 4 < 256
        }),
{
    let offset = payload_offset(pkt);
    let p = pkt.skip(offset);
    let (first, last) = pmt_entries_range(p)->0;
    let start = 1 + p[0];
    let e = p.subrange(first, last);
    let kept = kept_entries(e, pids);
    let s = pmt_section(p, first, kept);
    let r = rewritten_pmt(pkt, pids)->0;
    let q = r.skip(offset);
    let n = first - start - 3 + kept.len() + 4;
    lemma_kept_len(e, pids);
    lemma_rewritten_head(pkt, pids);
    assert(r[4] == pkt[4] || offset == 4) by {
        if offset > 4 {
            assert(pkt.take(offset + start)[4] == pkt[4]);
        }
    }
    assert(payload_offset(r) == offset);
    assert(q.len() == p.len());
    assert forall|i: int| 0 <= i < start implies q[i] == p[i] by {
        assert(r[offset + i] == pkt[offset + i]);
    }
    assert forall|i: int| 0 <= i < s.len() implies q[start + i] == s[i] by {}
    let (h, l) = ((n / 256) as u8, (n % 256) as u8);
    let old_h = p[start + 1];
    assert(n < 256);
    assert(((old_h & 0xf0) | 0u8) % 16 == 0 && (old_h & 0xf0) | 0u8 == old_h & 0xf0) by (bit_vector);
    assert(h == 0 && l == n);
    assert(q[start] == p[start]);
    assert(q[start + 1] == s[1] && q[start + 2] == s[2]);
    assert(len_of(q[start + 1], q[start + 2]) == n);
    assert(section(q, 2) == Some((start, start + 3 + n)));
    assert(s[10] == p[start + 10] && s[11] == p[start + 11]);
    assert(pmt_entries_range(q) == Some((first, first + kept.len() as int)));
    assert(q.subrange(first, first + kept.len()) =~= kept);
    assert(q.subrange(start, start + 3 + n) =~= s + crc_bytes(crc32(s)));
    assert(r.take(offset + start) =~= pkt.take(offset + start));
}

/// A rewritten map table names the same clock and all the entries but the stripped ones,
/// and its checksum is right.
pub proof fn law_rewritten_pmt(pkt: Seq<u8>, pids: Seq<u16>)
    requires
        pkt.len() == 188,
        rewritten_pmt(pkt, pids) is Some,
    ensures
        ({
            let offset = payload_offset(pkt);
            let r = rewritten_pmt(pkt, pids)->0;
            let (pcr, es) = pmt(pkt.skip(offset))->0;
            let (start, end) = section(r.skip(offset), 2)->0;
            &&& payload_offset(r) == offset
            &&& pmt(r.skip(offset)) == Some((pcr, without(es, pids)))
            &&& section(r.skip(offset), 2) is Some
            &&& crc32(r.skip(offset).subrange(start, end)) == 0
        }),
{
    let offset = payload_offset(pkt);
    let p = pkt.skip(offset);
    let (first, last) = pmt_entries_range(p)->0;
    let start = 1 + p[0];
    let e = p.subrange(first, last);
    let s = pmt_section(p, first, kept_entries(e, pids));
    let q = rewritten_pmt(pkt, pids)->0.skip(offset);
    lemma_rewritten_parts(pkt, pids);
    lemma_kept_entries_parse(e, pids);
    law_crc_residue_is_zero(s);
    let whole = q.subrange(start, start + s.len() + 4);
    assert(s[8] == p[start + 8] && s[9] == p[start + 9]);
    assert(q[start + 8] == whole[8] && q[start + 9] == whole[9]);
}

proof fn lemma_kept_again(e: Seq<u8>, pids: Seq<u16>)
    ensures
        kept_entries(kept_entries(e, pids), pids) == kept_entries(e, pids),
    decreases e.len(),
{
    match entry_len(e) {
        None => {},
        Some(n) => {
            let rest = e.skip(n);
            let kept = kept_entries(e, pids);
            lemma_kept_again(rest, pids);
            if pids.contains(pid_of(e[1], e[2])) {
                assert(kept =~= kept_entries(rest, pids));
            } else {
                assert(kept.skip(n) =~= kept_entries(rest, pids));
                assert(kept.take(n) =~= e.take(n));
                assert(entry_len(kept) == Some(n));
            }
        },
    }
}

/// Rewriting a map table once more changes nothing.
proof fn lemma_rewritten_again(pkt: Seq<u8>, pids: Seq<u16>)
    requires
        pkt.len() == 188,
        rewritten_pmt(pkt, pids) is Some,
    ensures
        rewritten_pmt(rewritten_pmt(pkt, pids)->0, pids) == rewritten_pmt(pkt, pids),
{
    let offset = payload_offset(pkt);
    let p = pkt.skip(offset);
    let (first, last) = pmt_entries_range(p)->0;
    let start = 1 + p[0];
    let e = p.subrange(first, last);
    let kept = kept_entries(e, pids);
    let s = pmt_section(p, first, kept);
    let r = rewritten_pmt(pkt, pids)->0;
    let q = r.skip(offset);
    lemma_rewritten_parts(pkt, pids);
    lemma_rewritten_head(pkt, pids);
    lemma_kept_again(e, pids);
    let whole = q.subrange(start, start + s.len() + 4);
    let again = pmt_section(q, first, kept);
    let x = p[start + 1];
    assert(((x & 0xf0) & 0xf0) | 0u8 == x & 0xf0) by (bit_vector);
    assert forall|i: int| 0 <= i < s.len() implies q[start + i] == s[i] by {
        assert(whole[i] == s[i]);
    }
    assert(again.len() == s.len());
    assert forall|i: int| 0 <= i < s.len() implies again[i] == s[i] by {
        if 3 <= i < first - start {
            assert(again[i] == q[start + i]);
        }
    }
    assert(again =~= s);
}

/// What stands at the start of the bytes does not count for what is behind it.
proof fn lemma_stripped_from_behind(b: Seq<u8>, c: Seq<u8>, i: int, j: int, pmt_pid: u16, pids: Seq<u16>)
    requires
        0 <= i <= b.len(),
        0 <= j <= c.len(),
        b.skip(i) == c.skip(j),
    ensures
        stripped_from(b, i, pmt_pid, pids) == stripped_from(c, j, pmt_pid, pids),
    decreases b.len() - i,
{
    let (t, u) = (b.skip(i), c.skip(j));
    assert(t.len() == u.len());
    if i + 188 <= b.len() {
        assert(b[i] == t[0] && c[j] == u[0]);
        assert(packet_bytes(b, i) =~= t.take(188));
        assert(packet_bytes(c, j) =~= u.take(188));
        assert(b.skip(i + 188) =~= t.skip(188));
        assert(c.skip(j + 188) =~= u.skip(188));
        lemma_stripped_from_behind(b, c, i + 188, j + 188, pmt_pid, pids);
    }
}

/// Stripping what was stripped changes nothing.
proof fn lemma_stripped_from_again(b: Seq<u8>, i: int, pmt_pid: u16, pids: Seq<u16>)
    requires
        0 <= i <= b.len(),
    ensures
        stripped_from(stripped_from(b, i, pmt_pid, pids), 0, pmt_pid, pids) == stripped_from(b, i, pmt_pid, pids),
    decreases b.len() - i,
{
    let o = stripped_from(b, i, pmt_pid, pids);
    if i + 188 > b.len() || b[i] != SYNC {
        assert(o.skip(0) =~= o);
        if o.len() >= 188 {
            assert(o[0] == b[i]);
        }
    } else {
        let pkt = packet_bytes(b, i);
        let rest = stripped_from(b, i + 188, pmt_pid, pids);
        lemma_stripped_from_again(b, i + 188, pmt_pid, pids);
        if !pids.contains(pid_of(pkt[1], pkt[2])) {
            let table = pid_of(pkt[1], pkt[2]) == pmt_pid && pkt[1] & 0x40 != 0 && rewritten_pmt(pkt, pids) is Some;
            let x = if table {
                rewritten_pmt(pkt, pids)->0
            } else {
                pkt
            };
            if table {
                lemma_rewritten_head(pkt, pids);
                lemma_rewritten_again(pkt, pids);
            }
            assert(o == x + rest);
            assert(packet_bytes(o, 0) =~= x);
            assert(o[0] == x[0] == pkt[0] == b[i]);
            assert(o.skip(188) =~= rest.skip(0));
            lemma_stripped_from_behind(o, rest, 188, 0, pmt_pid, pids);
        }
    }
}

/// The bytes are packets, one after the other.
pub open spec fn all_packets(b: Seq<u8>) -> bool {
    b.len() % 188 == 0 && forall|i: int| 0 <= i < b.len() && i % 188 == 0 ==> b[i] == SYNC
}

proof fn lemma_packet_first(x: Seq<u8>, rest: Seq<u8>)
    requires
        x.len() == 188,
        x[0] == SYNC,
        all_packets(rest),
    ensures
        all_packets(x + rest),
{
    let o = x + rest;
    assert forall|k: int| 0 <= k < o.len() && k % 188 == 0 implies o[k] == SYNC by {
        if k >= 188 {
            assert((k - 188) % 188 == 0);
            assert(o[k] == rest[k - 188]);
        }
    }
}

proof fn lemma_stripped_from_packets(b: Seq<u8>, i: int, pmt_pid: u16, pids: Seq<u16>)
    requires
        all_packets(b),
        0 <= i <= b.len(),
        i % 188 == 0,
    ensures
        all_packets(stripped_from(b, i, pmt_pid, pids)),
    decreases b.len() - i,
{
    if i < b.len() {
        assert(b[i] == SYNC && i + 188 <= b.len());
        let pkt = packet_bytes(b, i);
        let rest = stripped_from(b, i + 188, pmt_pid, pids);
        lemma_stripped_from_packets(b, i + 188, pmt_pid, pids);
        assert(pkt[0] == b[i]);
        lemma_packet_first(pkt, rest);
        if let Some(r) = rewritten_pmt(pkt, pids) {
            lemma_rewritten_head(pkt, pids);
            lemma_packet_first(r, rest);
        }
    } else {
        assert(b.skip(i).len() == 0);
    }
}

/// Stripping packets of the same PIDs a second time changes nothing.
pub proof fn law_strip_twice(b: Seq<u8>, pmt_pid: u16, pids: Seq<u16>)
    requires
        all_packets(b),
    ensures
        stripped(stripped(b, pmt_pid, pids), pmt_pid, pids) == stripped(b, pmt_pid, pids),
{
    let r = stripped(b, pmt_pid, pids);
    if pids.len() > 0 && b.len() > 0 {
        assert(aligned_at(b, 0));
        assert(r =~= stripped_from(b, 0, pmt_pid, pids));
        lemma_stripped_from_packets(b, 0, pmt_pid, pids);
        lemma_stripped_from_again(b, 0, pmt_pid, pids);
        if r.len() > 0 {
            assert(aligned_at(r, 0));
            assert(r.take(0) + r =~= r);
        }
    }
}

/// Subtitles on the clock's PID are exactly those that cannot be stripped.
pub proof fn law_unsafe_means_not_strippable(pmt_pid: u16, pcr_pid: u16, es: Seq<(u8, u16, Seq<u8>)>)
    ensures
        ({
            let c = summary(pmt_pid, pcr_pid, es);
            c.dvb_unsafe <==> c.subtitle_pids.len() > 0 && strippable(c.subtitle_pids, c.pcr_pid).len() == 0
        }),
{
}

} // verus!
