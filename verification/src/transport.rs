//! How transport streams are written, and that they are read as they were written.
use vstd::prelude::*;
use crate::codec::{MAX_ES, Packet, VideoCodec, aligned_at, alignment, collected_es, entry_len, es_entries, first_video};
use crate::codec::{is_subtitle, len_of, packet, packet_bytes, pat_pmt_pid, payload_offset, pes_offset, pid_of};
use crate::codec::{pmt, pmt_from, pmt_pid_from, program_pid, section, subtitle_pids, subtitling, ts_class, video_es};
use crate::sps::{SpsCodec, hevc_sps, h264_sps, sps_payload};

verus! {

/// A packet with a payload; what the payload leaves of it is stuffed.
pub struct TsPacket {
    pub pid: u16,
    /// A table or a picture starts with the payload.
    pub start: bool,
    pub payload: Seq<u8>,
}

impl TsPacket {
    pub open spec fn fits(self) -> bool {
        self.pid < 8192 && 0 < self.payload.len() <= 184
    }

    pub open spec fn bytes(self) -> Seq<u8> {
        let n = 184 - self.payload.len();
        let hi = (self.pid / 256 + if self.start {
            64int
        } else {
            0
        }) as u8;
        let lo = (self.pid % 256) as u8;
        if n == 0 {
            seq![0x47u8, hi, lo, 0x10u8] + self.payload
        } else {
            seq![0x47u8, hi, lo, 0x30u8, (n - 1) as u8] + Seq::new((n - 1) as nat, |i: int| 0xffu8) + self.payload
        }
    }
}

/// Packets are read as they were written.
pub proof fn law_packets_are_read_back(p: TsPacket, more: Seq<u8>)
    requires
        p.fits(),
    ensures
        p.bytes().len() == 188,
        p.bytes()[0] == 0x47,
        packet(p.bytes() + more) == Some(
            Packet {
                pid: p.pid,
                payload_unit_start: p.start,
                has_payload: true,
                payload_offset: (188 - p.payload.len()) as usize,
            },
        ),
        p.bytes().skip(188 - p.payload.len()) == p.payload,
{
    let b = p.bytes() + more;
    let h = (p.pid / 256) as u8;
    assert(h < 32);
    assert(((h + 64) as u8) & 0x40 != 0 && h & 0x40 == 0 && ((h + 64) as u8) % 32 == h && h % 32 == h) by (bit_vector)
        requires
            h < 32,
    ;
    assert(0x10u8 & 0x20 == 0 && 0x10u8 & 0x10 != 0 && 0x30u8 & 0x20 != 0 && 0x30u8 & 0x10 != 0) by (bit_vector);
    assert(b[0] == 0x47 && b[2] == (p.pid % 256) as u8);
    assert(b[1] == if p.start {
        (h + 64) as u8
    } else {
        h
    });
    assert((p.pid / 256) * 256 + p.pid % 256 == p.pid);
    assert(pid_of(b[1], b[2]) == p.pid);
    assert(payload_offset(b) == 188 - p.payload.len());
    assert(p.bytes().skip(188 - p.payload.len()) =~= p.payload);
}

// --- Tables ----------------------------------------------------------------------------------

/// The start of a payload with a table: its number, its length, what it holds and its checksum.
pub open spec fn section_bytes(id: u8, body: Seq<u8>, crc: Seq<u8>) -> Seq<u8> {
    let n = body.len() + crc.len();
    seq![0u8, id, (0xb0 + n / 256) as u8, (n % 256) as u8] + (body + crc)
}

proof fn lemma_section(id: u8, body: Seq<u8>, crc: Seq<u8>, more: Seq<u8>)
    requires
        9 <= body.len() + crc.len() < 4096,
    ensures
        section(section_bytes(id, body, crc) + more, id) == Some((1int, (4 + body.len() + crc.len()) as int)),
        forall|i: int| 0 <= i < body.len() ==> (section_bytes(id, body, crc) + more)[4 + i] == #[trigger] body[i],
{
    let n = body.len() + crc.len();
    let p = section_bytes(id, body, crc) + more;
    assert(p[0] == 0 && p[1] == id && p[2] == (0xb0 + n / 256) as u8 && p[3] == (n % 256) as u8);
    assert(n / 256 < 16);
    assert((0xb0 + n / 256) % 16 == n / 256);
    assert(len_of(p[2], p[3]) == n);
    assert forall|i: int| 0 <= i < body.len() implies p[4 + i] == #[trigger] body[i] by {
        assert((body + crc)[i] == body[i]);
    }
}

/// A program of an association table.
pub struct Program {
    pub number: u16,
    pub pid: u16,
}

pub open spec fn program_bytes(ps: Seq<Program>) -> Seq<u8> {
    Seq::new(
        4 * ps.len(),
        |i: int|
            {
                let p = ps[i / 4];
                if i % 4 == 0 {
                    (p.number / 256) as u8
                } else if i % 4 == 1 {
                    (p.number % 256) as u8
                } else if i % 4 == 2 {
                    (0xe0 + p.pid / 256) as u8
                } else {
                    (p.pid % 256) as u8
                }
            },
    )
}

/// An association table.
pub open spec fn association(head: Seq<u8>, ps: Seq<Program>, crc: Seq<u8>) -> Seq<u8> {
    section_bytes(0, head + program_bytes(ps), crc)
}

/// An association table names the program map table of its first program, of those with a number.
pub proof fn law_association_tables_name_their_program(
    head: Seq<u8>,
    ps: Seq<Program>,
    crc: Seq<u8>,
    more: Seq<u8>,
    k: int,
)
    requires
        head.len() == 5,
        crc.len() == 4,
        4 * ps.len() < 4000,
        0 <= k < ps.len(),
        ps[k].pid < 8192,
        ps[k].number != 0,
        forall|j: int| 0 <= j < k ==> (#[trigger] ps[j]).number == 0,
    ensures
        pat_pmt_pid(association(head, ps, crc) + more) == Some(ps[k].pid),
{
    let body = head + program_bytes(ps);
    let p = association(head, ps, crc) + more;
    lemma_section(0, body, crc, more);
    lemma_programs(head, ps, crc, more, 0, k);
}

proof fn lemma_programs(head: Seq<u8>, ps: Seq<Program>, crc: Seq<u8>, more: Seq<u8>, from: int, k: int)
    requires
        head.len() == 5,
        crc.len() == 4,
        4 * ps.len() < 4000,
        0 <= from <= k < ps.len(),
        ps[k].pid < 8192,
        ps[k].number != 0,
        forall|j: int| 0 <= j < k ==> (#[trigger] ps[j]).number == 0,
    ensures
        program_pid(association(head, ps, crc) + more, 9 + 4 * from, 9 + 4 * (ps.len() as int)) == Some(ps[k].pid),
    decreases k - from,
{
    let body = head + program_bytes(ps);
    let p = association(head, ps, crc) + more;
    lemma_section(0, body, crc, more);
    let x = ps[from];
    let i = 4 * from;
    lemma_program_bytes(ps, from);
    assert(body[5 + i] == program_bytes(ps)[i] && body[6 + i] == program_bytes(ps)[i + 1]);
    assert(body[7 + i] == program_bytes(ps)[i + 2] && body[8 + i] == program_bytes(ps)[i + 3]);
    assert(p[4 + (5 + i)] == body[5 + i] && p[4 + (6 + i)] == body[6 + i]);
    assert(p[4 + (7 + i)] == body[7 + i] && p[4 + (8 + i)] == body[8 + i]);
    if from < k {
        assert(x.number == 0);
        lemma_programs(head, ps, crc, more, from + 1, k);
    } else {
        lemma_pid_bytes(x.pid);
    }
}

proof fn lemma_program_bytes(ps: Seq<Program>, k: int)
    requires
        0 <= k < ps.len(),
    ensures
        program_bytes(ps)[4 * k] == (ps[k].number / 256) as u8,
        program_bytes(ps)[4 * k + 1] == (ps[k].number % 256) as u8,
        program_bytes(ps)[4 * k + 2] == (0xe0 + ps[k].pid / 256) as u8,
        program_bytes(ps)[4 * k + 3] == (ps[k].pid % 256) as u8,
        (ps[k].number == 0) == (((ps[k].number / 256) as u8) == 0 && ((ps[k].number % 256) as u8) == 0),
{
}

proof fn lemma_pid_bytes(pid: u16)
    requires
        pid < 8192,
    ensures
        pid_of((0xe0 + pid / 256) as u8, (pid % 256) as u8) == pid,
{
    assert((0xe0 + pid / 256) % 32 == pid / 256);
}

/// The bytes of an entry of a map table: type, PID, descriptors.
pub open spec fn entry_bytes(e: (u8, u16, Seq<u8>)) -> Seq<u8> {
    seq![
        e.0,
        (0xe0 + e.1 / 256) as u8,
        (e.1 % 256) as u8,
        (0xf0 + e.2.len() / 256) as u8,
        (e.2.len() % 256) as u8,
    ] + e.2
}

pub open spec fn entries_bytes(es: Seq<(u8, u16, Seq<u8>)>) -> Seq<u8>
    decreases es.len(),
{
    if es.len() == 0 {
        Seq::empty()
    } else {
        entry_bytes(es[0]) + entries_bytes(es.skip(1))
    }
}

pub open spec fn entries_fit(es: Seq<(u8, u16, Seq<u8>)>) -> bool {
    forall|i: int| 0 <= i < es.len() ==> (#[trigger] es[i]).1 < 8192 && es[i].2.len() < 4096
}

proof fn lemma_entries(es: Seq<(u8, u16, Seq<u8>)>)
    requires
        entries_fit(es),
    ensures
        es_entries(entries_bytes(es)) == es,
    decreases es.len(),
{
    if es.len() > 0 {
        let (t, pid, d) = es[0];
        let rest = es.skip(1);
        assert(entries_fit(rest)) by {
            assert forall|i: int| 0 <= i < rest.len() implies (#[trigger] rest[i]).1 < 8192 && rest[i].2.len() < 4096 by {
                assert(rest[i] == es[i + 1]);
            }
        }
        lemma_entries(rest);
        let e = entries_bytes(es);
        let n = 5 + d.len();
        assert(e[0] == t && e[1] == (0xe0 + pid / 256) as u8 && e[2] == (pid % 256) as u8);
        assert(e[3] == (0xf0 + d.len() / 256) as u8 && e[4] == (d.len() % 256) as u8);
        assert((0xf0 + d.len() / 256) % 16 == d.len() / 256);
        assert((0xe0 + pid / 256) % 32 == pid / 256);
        assert(len_of(e[3], e[4]) == d.len());
        assert(pid_of(e[1], e[2]) == pid);
        assert(entry_len(e) == Some(n as int));
        assert(e.subrange(5, n as int) =~= d);
        assert(e.skip(n as int) =~= entries_bytes(rest));
        assert(seq![(t, pid, d)] + rest =~= es);
    } else {
        assert(es_entries(entries_bytes(es)) =~= es);
    }
}

/// A map table.
pub open spec fn map_table(head: Seq<u8>, pcr: u16, info: Seq<u8>, es: Seq<(u8, u16, Seq<u8>)>, crc: Seq<u8>) -> Seq<u8> {
    section_bytes(2, map_body(head, pcr, info, es), crc)
}

pub open spec fn map_body(head: Seq<u8>, pcr: u16, info: Seq<u8>, es: Seq<(u8, u16, Seq<u8>)>) -> Seq<u8> {
    head + seq![
        (0xe0 + pcr / 256) as u8,
        (pcr % 256) as u8,
        (0xf0 + info.len() / 256) as u8,
        (info.len() % 256) as u8,
    ] + info + entries_bytes(es)
}

/// Map tables are read as they were written: the clock's PID, and type, PID and descriptors of each
/// stream.
pub proof fn law_map_tables_are_read_back(
    head: Seq<u8>,
    pcr: u16,
    info: Seq<u8>,
    es: Seq<(u8, u16, Seq<u8>)>,
    crc: Seq<u8>,
    more: Seq<u8>,
)
    requires
        head.len() == 5,
        crc.len() == 4,
        pcr < 8192,
        entries_fit(es),
        map_body(head, pcr, info, es).len() < 4000,
    ensures
        pmt(map_table(head, pcr, info, es, crc) + more) == Some((pcr, es)),
{
    let body = map_body(head, pcr, info, es);
    let p = map_table(head, pcr, info, es, crc) + more;
    lemma_section(2, body, crc, more);
    lemma_entries(es);
    assert(body.len() == 9 + info.len() + entries_bytes(es).len());
    assert(body[5] == (0xe0 + pcr / 256) as u8 && body[6] == (pcr % 256) as u8);
    assert(body[7] == (0xf0 + info.len() / 256) as u8 && body[8] == (info.len() % 256) as u8);
    let i: int = 4;
    assert(p[i + 5] == body[5] && p[i + 6] == body[6] && p[i + 7] == body[7] && p[i + 8] == body[8]);
    assert((0xe0 + pcr / 256) % 32 == pcr / 256);
    assert((0xf0 + info.len() / 256) % 16 == info.len() / 256);
    assert(pid_of(p[9], p[10]) == pcr);
    assert(len_of(p[11], p[12]) == info.len());
    let first = 13 + info.len();
    let last = 4 + body.len();
    let e = entries_bytes(es);
    assert(p.subrange(first as int, last as int) =~= e) by {
        assert forall|i: int| 0 <= i < e.len() implies p[first + i] == #[trigger] e[i] by {
            assert(body[9 + info.len() + i] == e[i]);
            assert(p[4 + (9 + info.len() + i)] == body[9 + info.len() + i]);
        }
    }
}

// --- Chunks ----------------------------------------------------------------------------------

/// Packets, one behind the other.
pub open spec fn chunk(ps: Seq<TsPacket>) -> Seq<u8> {
    Seq::new(188 * ps.len(), |i: int| ps[i / 188].bytes()[i % 188])
}

pub open spec fn all_fit(ps: Seq<TsPacket>) -> bool {
    forall|i: int| 0 <= i < ps.len() ==> (#[trigger] ps[i]).fits()
}

proof fn lemma_packet_of_chunk(ps: Seq<TsPacket>, k: int)
    requires
        all_fit(ps),
        0 <= k < ps.len(),
    ensures
        188 * k + 188 <= chunk(ps).len(),
        packet_bytes(chunk(ps), 188 * k) == ps[k].bytes(),
        packet(ps[k].bytes()) == Some(
            Packet {
                pid: ps[k].pid,
                payload_unit_start: ps[k].start,
                has_payload: true,
                payload_offset: (188 - ps[k].payload.len()) as usize,
            },
        ),
        ps[k].bytes().skip(188 - ps[k].payload.len()) == ps[k].payload,
{
    let b = ps[k].bytes();
    law_packets_are_read_back(ps[k], Seq::empty());
    assert(b + Seq::<u8>::empty() =~= b);
    assert(188 * k + 188 <= chunk(ps).len()) by (nonlinear_arith)
        requires
            k + 1 <= ps.len(),
            chunk(ps).len() == 188 * ps.len(),
    ;
    assert(packet_bytes(chunk(ps), 188 * k) =~= b) by {
        assert forall|i: int| 0 <= i < 188 implies #[trigger] chunk(ps)[188 * k + i] == b[i] by {
            assert((188 * k + i) / 188 == k && (188 * k + i) % 188 == i);
        }
    }
}

/// Packets that follow each other are found from the first one on.
pub proof fn law_chunks_start_with_their_first_packet(ps: Seq<TsPacket>)
    requires
        all_fit(ps),
        ps.len() > 0,
    ensures
        alignment(chunk(ps)) == Some(0int),
{
    let b = chunk(ps);
    lemma_packet_of_chunk(ps, 0);
    law_packets_are_read_back(ps[0], Seq::empty());
    assert(b[0] == packet_bytes(b, 0)[0]);
    if ps.len() > 1 {
        lemma_packet_of_chunk(ps, 1);
        law_packets_are_read_back(ps[1], Seq::empty());
        assert(b[188] == packet_bytes(b, 188)[0]);
    }
    assert(aligned_at(b, 0));
}

proof fn lemma_find_association(ps: Seq<TsPacket>, from: int, a: int, pid: u16)
    requires
        all_fit(ps),
        0 <= from <= a < ps.len(),
        ps[a].pid == 0,
        ps[a].start,
        pat_pmt_pid(ps[a].payload) == Some(pid),
        forall|i: int| 0 <= i < a ==> (#[trigger] ps[i]).pid != 0,
    ensures
        pmt_pid_from(chunk(ps), 188 * from) == Some(pid),
    decreases a - from,
{
    lemma_packet_of_chunk(ps, from);
    if from < a {
        assert(ps[from].pid != 0);
        lemma_find_association(ps, from + 1, a, pid);
        assert(188 * (from + 1) == 188 * from + 188);
    }
}

proof fn lemma_find_map(ps: Seq<TsPacket>, from: int, m: int, pid: u16)
    requires
        all_fit(ps),
        0 <= from <= m < ps.len(),
        ps[m].pid == pid,
        ps[m].start,
        pmt(ps[m].payload) is Some,
        forall|i: int| 0 <= i < m ==> (#[trigger] ps[i]).pid != pid,
    ensures
        pmt_from(chunk(ps), 188 * from, pid) == pmt(ps[m].payload),
    decreases m - from,
{
    lemma_packet_of_chunk(ps, from);
    if from < m {
        assert(ps[from].pid != pid);
        lemma_find_map(ps, from + 1, m, pid);
        assert(188 * (from + 1) == 188 * from + 188);
    }
}

/// What a packet carries of its stream: behind the header, where a picture starts.
pub open spec fn carried_by(p: TsPacket) -> Seq<u8> {
    if p.start {
        p.payload.skip(9 + p.payload[8])
    } else {
        p.payload
    }
}

/// What the packets carry of the stream on a PID.
pub open spec fn carried(ps: Seq<TsPacket>, pid: u16) -> Seq<u8>
    decreases ps.len(),
{
    if ps.len() == 0 {
        Seq::empty()
    } else if ps.last().pid == pid {
        carried(ps.drop_last(), pid) + carried_by(ps.last())
    } else {
        carried(ps.drop_last(), pid)
    }
}

/// Where pictures of the stream start, there is the header of one.
pub open spec fn well_headed(ps: Seq<TsPacket>, pid: u16) -> bool {
    forall|i: int|
        0 <= i < ps.len() && (#[trigger] ps[i]).pid == pid && ps[i].start ==> {
            &&& ps[i].payload.len() >= 9
            &&& ps[i].payload[0] == 0 && ps[i].payload[1] == 0 && ps[i].payload[2] == 1
            &&& 0x80 <= ps[i].payload[6] < 0xc0
            &&& 9 + ps[i].payload[8] <= ps[i].payload.len()
        }
}

/// Behind the header of a picture its stream goes on; what is no header is not passed over.
pub proof fn law_streams_go_on_behind_headers(p: Seq<u8>)
    requires
        p.len() >= 9,
        p[0] == 0 && p[1] == 0 && p[2] == 1,
    ensures
        0x80 <= p[6] < 0xc0 && 9 + p[8] <= p.len() ==> pes_offset(p) == Some(9 + p[8]),
        p[6] < 0x80 || p[6] >= 0xc0 ==> pes_offset(p) == Some(6int),
{
    let x = p[6];
    assert(x & 0xc0 == 0x80 <==> 0x80 <= x && x < 0xc0) by (bit_vector);
}

proof fn lemma_carried_len(ps: Seq<TsPacket>, pid: u16)
    requires
        all_fit(ps),
        well_headed(ps, pid),
    ensures
        carried(ps, pid).len() <= 184 * ps.len(),
    decreases ps.len(),
{
    if ps.len() > 0 {
        let t = ps.drop_last();
        assert forall|i: int| 0 <= i < t.len() implies #[trigger] t[i] == ps[i] by {}
        lemma_carried_len(t, pid);
        assert(ps.last() == ps[ps.len() - 1]);
    }
}

proof fn lemma_gather(ps: Seq<TsPacket>, from: int, pid: u16)
    requires
        all_fit(ps),
        well_headed(ps, pid),
        184 * ps.len() < MAX_ES,
        0 <= from <= ps.len(),
    ensures
        video_es(chunk(ps), 188 * from, pid, carried(ps.take(from), pid)) == Some(carried(ps, pid)),
    decreases ps.len() - from,
{
    let g = carried(ps.take(from), pid);
    let head = ps.take(from);
    assert forall|i: int| 0 <= i < head.len() implies #[trigger] head[i] == ps[i] by {}
    lemma_carried_len(head, pid);
    if from < ps.len() {
        let p = ps[from];
        let next = ps.take(from + 1);
        lemma_packet_of_chunk(ps, from);
        assert(next.drop_last() =~= head);
        assert(next.last() == p);
        if p.pid == pid && p.start {
            law_streams_go_on_behind_headers(p.payload);
        }
        lemma_gather(ps, from + 1, pid);
        assert(188 * (from + 1) == 188 * from + 188);
    } else {
        assert(head =~= ps);
        assert(188 * from + 188 > chunk(ps).len());
    }
}

/// The stream on a PID is what its packets carry, one behind the other.
pub proof fn law_streams_are_gathered(ps: Seq<TsPacket>, pid: u16)
    requires
        all_fit(ps),
        well_headed(ps, pid),
        184 * ps.len() < 65536,
        carried(ps, pid).len() > 0,
    ensures
        collected_es(chunk(ps), 0, pid) == Some(carried(ps, pid)),
{
    lemma_gather(ps, 0, pid);
    assert(ps.take(0) =~= Seq::empty());
}

/// A chunk is told of by its tables: the association table names the map table, which names the
/// clock and the streams.
pub proof fn law_chunks_tell_of_their_tables(
    ps: Seq<TsPacket>,
    a: int,
    m: int,
    pid: u16,
    pcr: u16,
    es: Seq<(u8, u16, Seq<u8>)>,
)
    requires
        all_fit(ps),
        0 <= a < ps.len(),
        ps[a].pid == 0,
        ps[a].start,
        pat_pmt_pid(ps[a].payload) == Some(pid),
        forall|i: int| 0 <= i < a ==> (#[trigger] ps[i]).pid != 0,
        0 <= m < ps.len(),
        ps[m].pid == pid,
        ps[m].start,
        pmt(ps[m].payload) == Some((pcr, es)),
        forall|i: int| 0 <= i < m ==> (#[trigger] ps[i]).pid != pid,
    ensures
        ({
            let r = ts_class(chunk(ps));
            &&& r is Some
            &&& r->0.pmt_pid == Some(pid)
            &&& r->0.pcr_pid == Some(pcr)
            &&& r->0.subtitle_pids == subtitle_pids(es)
            &&& r->0.dvb_unsafe == subtitle_pids(es).contains(pcr)
            &&& match first_video(es) {
                Some((codec, video_pid)) => r->0.video_codec == Some(codec) && r->0.video_pid == Some(video_pid),
                None => r->0.video_codec is None && r->0.video_pid is None && r->0.width is None && r->0.height is None,
            }
        }),
{
    law_chunks_start_with_their_first_packet(ps);
    lemma_find_association(ps, 0, a, pid);
    lemma_find_map(ps, 0, m, pid);
}

/// A chunk is told of by the sequence parameter set in its video.
pub proof fn law_chunks_tell_of_their_picture(
    ps: Seq<TsPacket>,
    a: int,
    m: int,
    pid: u16,
    pcr: u16,
    es: Seq<(u8, u16, Seq<u8>)>,
    video_pid: u16,
    set: Seq<u8>,
)
    requires
        all_fit(ps),
        184 * ps.len() < 65536,
        0 <= a < ps.len(),
        ps[a].pid == 0,
        ps[a].start,
        pat_pmt_pid(ps[a].payload) == Some(pid),
        forall|i: int| 0 <= i < a ==> (#[trigger] ps[i]).pid != 0,
        0 <= m < ps.len(),
        ps[m].pid == pid,
        ps[m].start,
        pmt(ps[m].payload) == Some((pcr, es)),
        forall|i: int| 0 <= i < m ==> (#[trigger] ps[i]).pid != pid,
        well_headed(ps, video_pid),
        carried(ps, video_pid).len() > 0,
    ensures
        first_video(es) == Some((VideoCodec::Hevc, video_pid)) && sps_payload(carried(ps, video_pid), SpsCodec::Hevc) == Some(set)
            ==> (hevc_sps(set) matches Some(s) ==> {
            let c = ts_class(chunk(ps))->0;
            c.width == s.width && c.height == s.height && c.framerate == s.framerate && c.pix_fmt == s.pix_fmt
                && c.color_transfer == s.color_transfer
        }),
        first_video(es) == Some((VideoCodec::H264, video_pid)) && sps_payload(carried(ps, video_pid), SpsCodec::H264) == Some(set)
            ==> (h264_sps(set) matches Some(s) ==> {
            let c = ts_class(chunk(ps))->0;
            c.width == s.width && c.height == s.height && c.framerate == s.framerate && c.pix_fmt == s.pix_fmt
                && c.color_transfer == s.color_transfer
        }),
{
    law_chunks_start_with_their_first_packet(ps);
    lemma_find_association(ps, 0, a, pid);
    lemma_find_map(ps, 0, m, pid);
    law_streams_are_gathered(ps, video_pid);
}

// --- What the streams are ----------------------------------------------------------------------

/// The first stream of a video type is the video: H.264 for type 27, HEVC for type 36.
pub proof fn law_the_first_video_counts(es: Seq<(u8, u16, Seq<u8>)>, k: int)
    requires
        0 <= k < es.len(),
        forall|i: int| 0 <= i < k ==> (#[trigger] es[i]).0 == 0x03 || es[i].0 == 0x04 || es[i].0 == 0x06 || es[i].0 == 0x0f,
    ensures
        es[k].0 == 27 ==> first_video(es) == Some((VideoCodec::H264, es[k].1)),
        es[k].0 == 36 ==> first_video(es) == Some((VideoCodec::Hevc, es[k].1)),
        es[k].0 == 2 ==> first_video(es) == Some((VideoCodec::Other, es[k].1)),
    decreases es.len(),
{
    if k < es.len() - 1 {
        law_the_first_video_counts(es.drop_last(), k);
    } else {
        lemma_no_video(es.drop_last());
    }
}

proof fn lemma_no_video(es: Seq<(u8, u16, Seq<u8>)>)
    requires
        forall|i: int|
            0 <= i < es.len() ==> (#[trigger] es[i]).0 == 0x03 || es[i].0 == 0x04 || es[i].0 == 0x06 || es[i].0 == 0x0f,
    ensures
        first_video(es) is None,
    decreases es.len(),
{
    if es.len() > 0 {
        lemma_no_video(es.drop_last());
    }
}

/// The subtitle streams are those of private data of which some descriptor marks subtitles.
pub proof fn law_subtitles_are_told(es: Seq<(u8, u16, Seq<u8>)>, pid: u16)
    ensures
        subtitle_pids(es).contains(pid) <==> exists|i: int|
            0 <= i < es.len() && (#[trigger] es[i]).1 == pid && es[i].0 == 6 && subtitling(es[i].2),
    decreases es.len(),
{
    if es.len() > 0 {
        let t = es.drop_last();
        let before = subtitle_pids(t);
        law_subtitles_are_told(t, pid);
        assert forall|i: int| 0 <= i < t.len() implies #[trigger] t[i] == es[i] by {}
        let last = es[es.len() - 1];
        assert(last == es.last());
        if is_subtitle(es.last()) {
            let all = before.push(es.last().1);
            assert(all[before.len() as int] == es.last().1);
            if before.contains(pid) {
                let x = choose|x: int| 0 <= x < before.len() && before[x] == pid;
                assert(all[x] == pid);
            }
            if all.contains(pid) && pid != es.last().1 {
                let x = choose|x: int| 0 <= x < all.len() && all[x] == pid;
                assert(before[x] == pid);
            }
        }
        if subtitle_pids(es).contains(pid) && !before.contains(pid) {
            assert(es[es.len() - 1].1 == pid);
        }
        if before.contains(pid) {
            let i = choose|i: int| 0 <= i < t.len() && (#[trigger] t[i]).1 == pid && t[i].0 == 6 && subtitling(t[i].2);
            assert(es[i] == t[i]);
        }
        if exists|i: int| 0 <= i < es.len() && (#[trigger] es[i]).1 == pid && es[i].0 == 6 && subtitling(es[i].2) {
            let i = choose|i: int| 0 <= i < es.len() && (#[trigger] es[i]).1 == pid && es[i].0 == 6 && subtitling(es[i].2);
            if i < t.len() {
                assert(t[i] == es[i]);
            } else {
                assert(is_subtitle(es.last()));
            }
        }
    }
}

/// Descriptors: tags with what they hold.
pub open spec fn descriptor_bytes(ds: Seq<(u8, Seq<u8>)>) -> Seq<u8>
    decreases ds.len(),
{
    if ds.len() == 0 {
        Seq::empty()
    } else {
        seq![ds[0].0, ds[0].1.len() as u8] + ds[0].1 + descriptor_bytes(ds.skip(1))
    }
}

/// Subtitles are marked by a descriptor with the tag 89.
pub proof fn law_subtitles_are_marked_by_a_tag(ds: Seq<(u8, Seq<u8>)>)
    requires
        forall|i: int| 0 <= i < ds.len() ==> (#[trigger] ds[i]).1.len() < 256,
    ensures
        subtitling(descriptor_bytes(ds)) <==> exists|i: int| 0 <= i < ds.len() && (#[trigger] ds[i]).0 == 89,
    decreases ds.len(),
{
    if ds.len() > 0 {
        let rest = ds.skip(1);
        let d = descriptor_bytes(ds);
        assert forall|i: int| 0 <= i < rest.len() implies #[trigger] rest[i] == ds[i + 1] by {}
        law_subtitles_are_marked_by_a_tag(rest);
        assert(d[0] == ds[0].0 && d[1] == ds[0].1.len() as u8);
        assert(d.skip(2 + d[1]) =~= descriptor_bytes(rest));
        if exists|i: int| 0 <= i < ds.len() && (#[trigger] ds[i]).0 == 89 {
            let i = choose|i: int| 0 <= i < ds.len() && (#[trigger] ds[i]).0 == 89;
            if i > 0 {
                assert(rest[i - 1].0 == 89);
            }
        }
        if exists|i: int| 0 <= i < rest.len() && (#[trigger] rest[i]).0 == 89 {
            let i = choose|i: int| 0 <= i < rest.len() && (#[trigger] rest[i]).0 == 89;
            assert(ds[i + 1].0 == 89);
        }
    }
}

} // verus!
