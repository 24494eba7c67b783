//! H.264 and HEVC sequence parameter sets (SPS): the NAL units of an Annex-B
//! elementary stream, and the fields of an SPS that describe the picture.
use vstd::prelude::*;
use vstd::slice::slice_subrange;
use crate::bits::{BitReader, bit, bits, lemma_skip_none, next_bit, next_bits, next_se, next_ue, skip_fields};
use crate::bits::{skip_ses, ue};
use crate::single::{Single, single};
use crate::text::{decimal, opt_text, owned, push_decimal, push_text};

verus! {

/// What a sequence parameter set tells of the stream.
#[derive(Debug, Clone)]
pub struct SpsInfo {
    pub width: Option<u32>,
    pub height: Option<u32>,
    /// Frames per second.
    pub framerate: Option<Single>,
    /// Chroma format and bit depth, such as `yuv420p` or `yuv420p10le`.
    pub pix_fmt: Option<String>,
    /// Transfer characteristics, such as `bt709`, `smpte2084` or `arib-std-b67`.
    pub color_transfer: Option<String>,
    pub seq_parameter_set_id: Option<u64>,
    pub num_ref_frames: Option<u64>,
    pub log2_max_frame_num_minus4: Option<u64>,
    pub pic_order_cnt_type: Option<u64>,
    pub log2_max_pic_order_cnt_lsb_minus4: Option<u64>,
    pub delta_pic_order_always_zero_flag: Option<u8>,
    pub frame_mbs_only_flag: Option<u8>,
    pub separate_colour_plane_flag: Option<u8>,
}

/// The contents of an `SpsInfo`.
pub struct SpsView {
    pub width: Option<u32>,
    pub height: Option<u32>,
    pub framerate: Option<Single>,
    pub pix_fmt: Option<Seq<char>>,
    pub color_transfer: Option<Seq<char>>,
    pub seq_parameter_set_id: Option<u64>,
    pub num_ref_frames: Option<u64>,
    pub log2_max_frame_num_minus4: Option<u64>,
    pub pic_order_cnt_type: Option<u64>,
    pub log2_max_pic_order_cnt_lsb_minus4: Option<u64>,
    pub delta_pic_order_always_zero_flag: Option<u8>,
    pub frame_mbs_only_flag: Option<u8>,
    pub separate_colour_plane_flag: Option<u8>,
}

impl View for SpsInfo {
    type V = SpsView;

    open spec fn view(&self) -> SpsView {
        SpsView {
            width: self.width,
            height: self.height,
            framerate: self.framerate,
            pix_fmt: opt_text(self.pix_fmt),
            color_transfer: opt_text(self.color_transfer),
            seq_parameter_set_id: self.seq_parameter_set_id,
            num_ref_frames: self.num_ref_frames,
            log2_max_frame_num_minus4: self.log2_max_frame_num_minus4,
            pic_order_cnt_type: self.pic_order_cnt_type,
            log2_max_pic_order_cnt_lsb_minus4: self.log2_max_pic_order_cnt_lsb_minus4,
            delta_pic_order_always_zero_flag: self.delta_pic_order_always_zero_flag,
            frame_mbs_only_flag: self.frame_mbs_only_flag,
            separate_colour_plane_flag: self.separate_colour_plane_flag,
        }
    }
}

#[derive(Debug, Clone, Copy, PartialEq, Eq, Structural)]
pub enum SpsCodec {
    H264,
    Hevc,
}

// --- NAL units -------------------------------------------------------------------

/// A start code `00 00 01` ends right before position `s`.
pub open spec fn code_ends_at(b: Seq<u8>, s: int) -> bool {
    3 <= s <= b.len() && b[s - 3] == 0 && b[s - 2] == 0 && b[s - 1] == 1
}

/// The positions from `from` on at which a NAL unit starts: right behind a start code.
pub open spec fn unit_starts(b: Seq<u8>, from: int) -> Seq<int>
    decreases b.len() + 1 - from,
{
    if from > b.len() {
        Seq::empty()
    } else if code_ends_at(b, from) {
        seq![from] + unit_starts(b, from + 1)
    } else {
        unit_starts(b, from + 1)
    }
}

/// Where the start code begins that ends right before `s`: it takes up four bytes where a
/// zero stands before it.
pub open spec fn code_start(b: Seq<u8>, s: int) -> int {
    if s >= 4 && b[s - 4] == 0 {
        s - 4
    } else {
        s - 3
    }
}

/// Start and end of each NAL unit: it ends where the next start code begins, the last one
/// at the end of the bytes.
pub open spec fn units(b: Seq<u8>) -> Seq<(int, int)> {
    let st = unit_starts(b, 0);
    Seq::new(
        st.len(),
        |k: int|
            (
                st[k],
                if k + 1 < st.len() {
                    code_start(b, st[k + 1])
                } else {
                    b.len() as int
                },
            ),
    )
}

/// The pairs as mathematical integers.
pub open spec fn as_ints(v: Seq<(usize, usize)>) -> Seq<(int, int)> {
    Seq::new(v.len(), |k: int| (v[k].0 as int, v[k].1 as int))
}

proof fn lemma_unit_starts_bound(b: Seq<u8>, from: int)
    ensures
        forall|k: int|
            #![trigger unit_starts(b, from)[k]]
            0 <= k < unit_starts(b, from).len() ==> from <= unit_starts(b, from)[k] <= b.len() && code_ends_at(
                b,
                unit_starts(b, from)[k],
            ),
    decreases b.len() + 1 - from,
{
    if from <= b.len() {
        lemma_unit_starts_bound(b, from + 1);
        let rest = unit_starts(b, from + 1);
        assert forall|k: int|
            #![trigger unit_starts(b, from)[k]]
            0 <= k < unit_starts(b, from).len() implies from <= unit_starts(b, from)[k] <= b.len() && code_ends_at(
            b,
            unit_starts(b, from)[k],
        ) by {
            if code_ends_at(b, from) {
                if k > 0 {
                    assert(unit_starts(b, from)[k] == rest[k - 1]);
                }
            } else {
                assert(unit_starts(b, from)[k] == rest[k]);
            }
        }
    }
}

proof fn lemma_unit_starts_apart(b: Seq<u8>, from: int)
    ensures
        forall|j: int, k: int|
            #![trigger unit_starts(b, from)[j], unit_starts(b, from)[k]]
            0 <= j < k < unit_starts(b, from).len() ==> unit_starts(b, from)[j] + 3 <= unit_starts(b, from)[k],
    decreases b.len() + 1 - from,
{
    if from <= b.len() {
        let all = unit_starts(b, from);
        let rest = unit_starts(b, from + 1);
        lemma_unit_starts_bound(b, from + 1);
        lemma_unit_starts_apart(b, from + 1);
        assert forall|j: int, k: int| #![trigger all[j], all[k]] 0 <= j < k < all.len() implies all[j] + 3 <= all[k] by {
            if code_ends_at(b, from) {
                assert(all[k] == rest[k - 1]);
                if j > 0 {
                    assert(all[j] == rest[j - 1]);
                }
            } else {
                assert(all[j] == rest[j] && all[k] == rest[k]);
            }
        }
    }
}

/// Every NAL unit lies within the bytes, behind the one before it.
pub proof fn law_units_do_not_overlap(b: Seq<u8>)
    ensures
        forall|k: int| 0 <= k < units(b).len() ==> (#[trigger] units(b)[k]).0 <= units(b)[k].1 <= b.len(),
        forall|j: int, k: int|
            #![trigger units(b)[j], units(b)[k]]
            0 <= j < k < units(b).len() ==> units(b)[j].1 < units(b)[k].0,
{
    let st = unit_starts(b, 0);
    lemma_unit_starts_bound(b, 0);
    lemma_unit_starts_apart(b, 0);
    assert forall|k: int| 0 <= k < units(b).len() implies (#[trigger] units(b)[k]).0 <= units(b)[k].1 <= b.len() by {
        assert(code_ends_at(b, st[k]));
        if k + 1 < st.len() {
            assert(st[k] + 3 <= st[k + 1]);
        }
    }
    assert forall|j: int, k: int| #![trigger units(b)[j], units(b)[k]] 0 <= j < k < units(b).len() implies units(b)[j].1
        < units(b)[k].0 by {
        assert(st[j + 1] <= st[k]);
    }
}

/// Start and end of each NAL unit of an Annex-B stream.
pub fn nal_units(bytes: &[u8]) -> (r: Vec<(usize, usize)>)
    ensures
        as_ints(r@) == units(bytes@),
        forall|k: int| 0 <= k < r@.len() ==> (#[trigger] r@[k]).0 <= r@[k].1 <= bytes@.len(),
{
    let ghost b = bytes@;
    let mut starts: Vec<usize> = Vec::new();
    let mut i: usize = 0;
    let ghost mut found: Seq<int> = Seq::empty();
    proof {
        reveal_with_fuel(unit_starts, 4);
        assert(found + unit_starts(b, 3) =~= unit_starts(b, 0));
    }
    while i < bytes.len() && bytes.len() - i >= 3
        invariant
            b == bytes@,
            i <= b.len(),
            found.len() == starts@.len(),
            forall|k: int| 0 <= k < starts@.len() ==> found[k] == #[trigger] starts@[k],
            found + unit_starts(b, i + 3) == unit_starts(b, 0),
        decreases b.len() - i,
    {
        proof {
            reveal_with_fuel(unit_starts, 5);
        }
        if bytes[i] == 0 && bytes[i + 1] == 0 && bytes[i + 2] == 1 {
            starts.push(i + 3);
            proof {
                let was = found;
                found = found.push(i + 3);
                assert(found + unit_starts(b, i + 6) =~= was + unit_starts(b, i + 3));
            }
            i = i + 3;
        } else if bytes.len() - i >= 4 && bytes[i] == 0 && bytes[i + 1] == 0 && bytes[i + 2] == 0 && bytes[i + 3] == 1 {
            starts.push(i + 4);
            proof {
                let was = found;
                found = found.push(i + 4);
                assert(found + unit_starts(b, i + 7) =~= was + unit_starts(b, i + 3));
            }
            i = i + 4;
        } else {
            i = i + 1;
        }
    }
    proof {
        assert(found =~= unit_starts(b, 0));
        lemma_unit_starts_bound(b, 0);
    }
    let mut out: Vec<(usize, usize)> = Vec::new();
    let mut k: usize = 0;
    while k < starts.len()
        invariant
            b == bytes@,
            k <= starts@.len(),
            found == unit_starts(b, 0),
            found.len() == starts@.len(),
            forall|j: int| 0 <= j < starts@.len() ==> found[j] == #[trigger] starts@[j] && 3 <= starts@[j] <= b.len(),
            out@.len() == k,
            forall|j: int| 0 <= j < k ==> (#[trigger] as_ints(out@)[j]) == units(b)[j],
        decreases starts@.len() - k,
    {
        let end: usize = if k + 1 < starts.len() {
            let next: usize = starts[k + 1];
            if next >= 4 && bytes[next - 4] == 0 {
                next - 4
            } else {
                next - 3
            }
        } else {
            bytes.len()
        };
        let ghost was = as_ints(out@);
        out.push((starts[k], end));
        proof {
            assert(as_ints(out@) =~= was.push(units(b)[k as int]));
        }
        k = k + 1;
    }
    proof {
        assert(as_ints(out@) =~= units(b));
        law_units_do_not_overlap(b);
        assert forall|j: int| 0 <= j < out@.len() implies (#[trigger] out@[j]).0 <= out@[j].1 <= b.len() by {
            assert(as_ints(out@)[j] == units(b)[j]);
        }
    }
    out
}

// --- Emulation prevention ----------------------------------------------------------

/// The payload without its emulation-prevention bytes: `00 00 03` stands for `00 00`.
pub open spec fn unescape(e: Seq<u8>) -> Seq<u8>
    decreases e.len(),
{
    if e.len() == 0 {
        Seq::empty()
    } else if e.len() >= 3 && e[0] == 0 && e[1] == 0 && e[2] == 3 {
        seq![0u8, 0u8] + unescape(e.skip(3))
    } else {
        seq![e[0]] + unescape(e.skip(1))
    }
}

/// The payload as encoders write it: with a `03` between two zeros and a byte up to 3.
pub open spec fn escape(r: Seq<u8>) -> Seq<u8>
    decreases r.len(),
{
    if r.len() == 0 {
        Seq::empty()
    } else if r.len() >= 3 && r[0] == 0 && r[1] == 0 && r[2] <= 3 {
        seq![0u8, 0u8, 3u8] + escape(r.skip(2))
    } else {
        seq![r[0]] + escape(r.skip(1))
    }
}

/// Escaping a payload and unescaping it again gives the payload.
pub proof fn law_unescape_undoes_escape(r: Seq<u8>)
    ensures
        unescape(escape(r)) == r,
    decreases r.len(),
{
    if r.len() > 0 {
        if r.len() >= 3 && r[0] == 0 && r[1] == 0 && r[2] <= 3 {
            law_unescape_undoes_escape(r.skip(2));
            assert(escape(r).skip(3) =~= escape(r.skip(2)));
        } else {
            law_unescape_undoes_escape(r.skip(1));
            lemma_escape_heads(r);
            assert(escape(r).skip(1) =~= escape(r.skip(1)));
        }
        assert(unescape(escape(r)) =~= r);
    }
}

/// Where nothing is put in right behind the first byte, the first bytes stay.
proof fn lemma_escape_heads(r: Seq<u8>)
    requires
        r.len() > 0,
        !(r.len() >= 3 && r[0] == 0 && r[1] == 0 && r[2] <= 3),
    ensures
        escape(r).len() >= r.len(),
        r.len() == 1 ==> escape(r).len() == 1,
        r.len() >= 2 ==> escape(r)[1] == r[1],
        r.len() == 2 ==> escape(r).len() == 2,
        r.len() >= 3 && r[0] == 0 && r[1] == 0 ==> escape(r)[2] == r[2],
{
    reveal_with_fuel(escape, 4);
    lemma_escape_len(r);
    if r.len() >= 2 {
        assert(escape(r)[1] == escape(r.skip(1))[0]);
    }
    if r.len() >= 3 && r[1] == 0 && r[2] > 3 {
        assert(r.skip(1).skip(1) =~= r.skip(2));
        assert(escape(r)[2] == escape(r.skip(1))[1] == escape(r.skip(2))[0]);
    }
}

proof fn lemma_escape_len(r: Seq<u8>)
    ensures
        escape(r).len() >= r.len(),
    decreases r.len(),
{
    if r.len() >= 3 && r[0] == 0 && r[1] == 0 && r[2] <= 3 {
        lemma_escape_len(r.skip(2));
    } else if r.len() > 0 {
        lemma_escape_len(r.skip(1));
    }
}

/// No start code appears in an escaped payload, nor anything else that begins with two zeros
/// and a byte below 3.
pub proof fn law_escaped_holds_no_start_code(r: Seq<u8>)
    ensures
        forall|i: int|
            0 <= i && i + 2 < escape(r).len() ==> !(#[trigger] escape(r)[i] == 0 && escape(r)[i + 1] == 0 && escape(r)[i + 2]
                < 3),
    decreases r.len(),
{
    if r.len() > 0 {
        let e = escape(r);
        if r.len() >= 3 && r[0] == 0 && r[1] == 0 && r[2] <= 3 {
            let rest = escape(r.skip(2));
            law_escaped_holds_no_start_code(r.skip(2));
            assert forall|i: int| 0 <= i && i + 2 < e.len() implies !(#[trigger] e[i] == 0 && e[i + 1] == 0 && e[i + 2]
                < 3) by {
                if i >= 3 {
                    assert(e[i] == rest[i - 3] && e[i + 1] == rest[i - 2] && e[i + 2] == rest[i - 1]);
                }
            }
        } else {
            let rest = escape(r.skip(1));
            law_escaped_holds_no_start_code(r.skip(1));
            lemma_escape_heads(r);
            assert forall|i: int| 0 <= i && i + 2 < e.len() implies !(#[trigger] e[i] == 0 && e[i + 1] == 0 && e[i + 2]
                < 3) by {
                if i >= 1 {
                    assert(e[i] == rest[i - 1] && e[i + 1] == rest[i] && e[i + 2] == rest[i + 1]);
                }
            }
        }
    }
}

/// Removes the emulation-prevention bytes.
pub fn rbsp_unescape(escaped: &[u8]) -> (r: Vec<u8>)
    ensures
        r@ == unescape(escaped@),
{
    let mut out: Vec<u8> = Vec::new();
    let mut i: usize = 0;
    proof {
        assert(escaped@.skip(0) =~= escaped@);
        assert(out@ + unescape(escaped@) =~= unescape(escaped@));
    }
    while i < escaped.len()
        invariant
            i <= escaped@.len(),
            out@ + unescape(escaped@.skip(i as int)) == unescape(escaped@),
        decreases escaped@.len() - i,
    {
        let ghost rest = escaped@.skip(i as int);
        let ghost was = out@;
        if escaped.len() - i > 2 && escaped[i] == 0 && escaped[i + 1] == 0 && escaped[i + 2] == 3 {
            out.push(0);
            out.push(0);
            proof {
                assert(rest.skip(3) =~= escaped@.skip(i + 3));
                assert(out@ + unescape(escaped@.skip(i + 3)) =~= was + unescape(rest));
            }
            i = i + 3;
        } else {
            out.push(escaped[i]);
            proof {
                assert(rest.skip(1) =~= escaped@.skip(i + 1));
                assert(out@ + unescape(escaped@.skip(i + 1)) =~= was + unescape(rest));
            }
            i = i + 1;
        }
    }
    proof {
        assert(out@ + unescape(escaped@.skip(i as int)) =~= out@);
    }
    out
}

// --- Finding the SPS -----------------------------------------------------------------

/// The type in the first byte of a NAL unit's header.
pub open spec fn nal_type(codec: SpsCodec, byte: u8) -> u8 {
    match codec {
        SpsCodec::H264 => byte & 0x1f,
        SpsCodec::Hevc => (byte >> 1) & 0x3f,
    }
}

pub open spec fn sps_type(codec: SpsCodec) -> u8 {
    match codec {
        SpsCodec::H264 => 7,
        SpsCodec::Hevc => 33,
    }
}

pub open spec fn header_len(codec: SpsCodec) -> int {
    match codec {
        SpsCodec::H264 => 1,
        SpsCodec::Hevc => 2,
    }
}

/// The unit from `u.0` to `u.1` is a sequence parameter set of at least two bytes.
pub open spec fn is_sps(b: Seq<u8>, u: (int, int), codec: SpsCodec) -> bool {
    u.1 - u.0 >= 2 && nal_type(codec, b[u.0]) == sps_type(codec)
}

/// The payload of the first sequence parameter set among the units `us`.
pub open spec fn first_sps(b: Seq<u8>, us: Seq<(int, int)>, codec: SpsCodec) -> Option<Seq<u8>>
    decreases us.len(),
{
    if us.len() == 0 {
        None
    } else if is_sps(b, us[0], codec) {
        Some(unescape(b.subrange(us[0].0 + header_len(codec), us[0].1)))
    } else {
        first_sps(b, us.skip(1), codec)
    }
}

/// The payload of the first sequence parameter set of an Annex-B stream.
pub open spec fn sps_payload(b: Seq<u8>, codec: SpsCodec) -> Option<Seq<u8>> {
    first_sps(b, units(b), codec)
}

/// Finds the first sequence parameter set of an Annex-B elementary stream and returns
/// its payload without header and emulation-prevention bytes.
pub fn find_sps_nal(es_bytes: &[u8], codec: SpsCodec) -> (r: Option<Vec<u8>>)
    ensures
        r matches Some(v) ==> sps_payload(es_bytes@, codec) == Some(v@),
        r is None ==> sps_payload(es_bytes@, codec) is None,
{
    let ghost b = es_bytes@;
    let list = nal_units(es_bytes);
    let mut k: usize = 0;
    proof {
        assert(units(b).skip(0) =~= units(b));
    }
    while k < list.len()
        invariant
            b == es_bytes@,
            k <= list@.len(),
            as_ints(list@) == units(b),
            forall|j: int| 0 <= j < list@.len() ==> (#[trigger] list@[j]).0 <= b.len() && list@[j].1 <= b.len(),
            first_sps(b, units(b), codec) == first_sps(b, units(b).skip(k as int), codec),
        decreases list@.len() - k,
    {
        let (start, end) = list[k];
        proof {
            assert(as_ints(list@)[k as int] == (start as int, end as int));
            assert(units(b).skip(k as int)[0] == (start as int, end as int));
            assert(units(b).skip(k as int).skip(1) =~= units(b).skip(k + 1));
        }
        if end > start && end - start >= 2 {
            let header = es_bytes[start];
            let found: bool = match codec {
                SpsCodec::H264 => header & 0x1f == 7,
                SpsCodec::Hevc => (header >> 1) & 0x3f == 33,
            };
            if found {
                let skip: usize = match codec {
                    SpsCodec::H264 => 1,
                    SpsCodec::Hevc => 2,
                };
                return Some(rbsp_unescape(slice_subrange(es_bytes, start + skip, end)));
            }
        }
        k = k + 1;
    }
    None
}

// --- Names -----------------------------------------------------------------------------

pub open spec fn chroma_name(chroma_format_idc: nat) -> Seq<char> {
    if chroma_format_idc == 2 {
        "yuv422p"@
    } else if chroma_format_idc == 3 {
        "yuv444p"@
    } else {
        "yuv420p"@
    }
}

/// The pixel format's name: the chroma format, and the depth where it is above 8 bits.
pub open spec fn pix_fmt_name(chroma_format_idc: nat, bit_depth: nat) -> Seq<char> {
    if bit_depth > 8 {
        chroma_name(chroma_format_idc) + decimal(bit_depth) + "le"@
    } else {
        chroma_name(chroma_format_idc)
    }
}

pub fn map_pix_fmt(chroma_format_idc: u64, bit_depth: u64) -> (r: String)
    ensures
        r@ == pix_fmt_name(chroma_format_idc as nat, bit_depth as nat),
{
    let mut out = match chroma_format_idc {
        2 => owned("yuv422p"),
        3 => owned("yuv444p"),
        _ => owned("yuv420p"),
    };
    if bit_depth > 8 {
        push_decimal(&mut out, bit_depth);
        push_text(&mut out, "le");
    }
    out
}

/// The name of a transfer characteristic, for those that tell SDR from HDR.
pub open spec fn transfer_name(byte: nat) -> Option<Seq<char>> {
    if byte == 1 || byte == 6 {
        Some("bt709"@)
    } else if byte == 14 {
        Some("bt2020-10"@)
    } else if byte == 15 {
        Some("bt2020-12"@)
    } else if byte == 16 {
        Some("smpte2084"@)
    } else if byte == 17 {
        Some("smpte428"@)
    } else if byte == 18 {
        Some("arib-std-b67"@)
    } else {
        None
    }
}

pub fn map_transfer(byte: u8) -> (r: Option<String>)
    ensures
        opt_text(r) == transfer_name(byte as nat),
{
    match byte {
        1 => Some(owned("bt709")),
        6 => Some(owned("bt709")),
        14 => Some(owned("bt2020-10")),
        15 => Some(owned("bt2020-12")),
        16 => Some(owned("smpte2084")),
        17 => Some(owned("smpte428")),
        18 => Some(owned("arib-std-b67")),
        _ => None,
    }
}

// --- Video usability information -----------------------------------------------------------

/// A bit at `p`, zero where there is none, and the position behind it.
pub open spec fn soft_bit(b: Seq<u8>, p: nat) -> (nat, nat) {
    match bit(b, p) {
        (Some(v), q) => (v, q),
        (None, q) => (0, q),
    }
}

/// A field of `n` bits at `p`, zero where the data ends in it, and the position behind it.
pub open spec fn soft_bits(b: Seq<u8>, p: nat, n: nat) -> (nat, nat) {
    match bits(b, p, n) {
        (Some(v), q) => (v, q),
        (None, q) => (0, q),
    }
}

fn read_soft_bit(r: &mut BitReader) -> (v: u8)
    requires
        old(r).wf(),
    ensures
        v == soft_bit(old(r).bytes@, old(r).pos()).0,
        final(r).moved(old(r), soft_bit(old(r).bytes@, old(r).pos()).1),
{
    match r.read_bit() {
        Some(v) => v,
        None => 0,
    }
}

fn read_soft_bits(r: &mut BitReader, n: usize) -> (v: u64)
    requires
        old(r).wf(),
    ensures
        v == soft_bits(old(r).bytes@, old(r).pos(), n as nat).0,
        v < vstd::arithmetic::power2::pow2(n as nat),
        final(r).moved(old(r), soft_bits(old(r).bytes@, old(r).pos(), n as nat).1),
{
    match r.read_bits(n) {
        Some(v) => v,
        None => {
            proof {
                vstd::arithmetic::power2::lemma_pow2_pos(n as nat);
            }
            0
        },
    }
}

/// The part that both codecs begin with, up to the chroma location: the transfer
/// characteristic, and the position behind that part.
pub open spec fn vui_head(b: Seq<u8>, p: nat) -> (Option<Seq<char>>, nat) {
    let (aspect, p) = soft_bit(b, p);
    let p = if aspect == 1 {
        let (idc, p) = soft_bits(b, p, 8);
        if idc == 255 {
            bits(b, bits(b, p, 16).1, 16).1
        } else {
            p
        }
    } else {
        p
    };
    let (overscan, p) = soft_bit(b, p);
    let p = if overscan == 1 {
        bit(b, p).1
    } else {
        p
    };
    let (signal, p) = soft_bit(b, p);
    let (transfer, p) = if signal == 1 {
        let p = bit(b, bits(b, p, 3).1).1;
        let (described, p) = soft_bit(b, p);
        if described == 1 {
            let p = bits(b, p, 8).1;
            let (t, p) = soft_bits(b, p, 8);
            (transfer_name(t), bits(b, p, 8).1)
        } else {
            (None, p)
        }
    } else {
        (None, p)
    };
    let (location, p) = soft_bit(b, p);
    let p = if location == 1 {
        ue(b, ue(b, p).1).1
    } else {
        p
    };
    (transfer, p)
}

fn read_vui_head(r: &mut BitReader) -> (t: Option<String>)
    requires
        old(r).wf(),
    ensures
        opt_text(t) == vui_head(old(r).bytes@, old(r).pos()).0,
        final(r).moved(old(r), vui_head(old(r).bytes@, old(r).pos()).1),
{
    let mut transfer: Option<String> = None;
    let aspect: u8 = read_soft_bit(r);
    if aspect == 1 {
        let aspect_ratio_idc: u64 = read_soft_bits(r, 8);
        if aspect_ratio_idc == 255 {
            let _ = r.read_bits(16);
            let _ = r.read_bits(16);
        }
    }
    let overscan: u8 = read_soft_bit(r);
    if overscan == 1 {
        let _ = r.read_bit();
    }
    let signal: u8 = read_soft_bit(r);
    if signal == 1 {
        let _ = r.read_bits(3);
        let _ = r.read_bit();
        let described: u8 = read_soft_bit(r);
        if described == 1 {
            let _ = r.read_bits(8);
            let characteristics: u64 = read_soft_bits(r, 8);
            let _ = r.read_bits(8);
            proof {
                vstd::arithmetic::power2::lemma2_to64();
            }
            transfer = map_transfer(characteristics as u8);
        }
    }
    let location: u8 = read_soft_bit(r);
    if location == 1 {
        let _ = r.read_ue();
        let _ = r.read_ue();
    }
    transfer
}

/// The timing fields at `p`: the frame rate in single precision, in which one frame takes
/// `fields` ticks.
pub open spec fn vui_rate(b: Seq<u8>, p: nat, fields: nat) -> Option<Single> {
    let (present, p) = soft_bit(b, p);
    if present == 1 {
        let (tick, p) = soft_bits(b, p, 32);
        let (scale, p) = soft_bits(b, p, 32);
        if tick > 0 {
            Some(single(single(scale, 1).units(), fields * single(tick, 1).units()))
        } else {
            None
        }
    } else {
        None
    }
}

fn read_vui_rate(r: &mut BitReader, fields: u64) -> (t: Option<Single>)
    requires
        old(r).wf(),
        1 <= fields <= 2,
    ensures
        t == vui_rate(old(r).bytes@, old(r).pos(), fields as nat),
{
    let present: u8 = read_soft_bit(r);
    if present == 1 {
        let tick: u64 = read_soft_bits(r, 32);
        let scale: u64 = read_soft_bits(r, 32);
        if tick > 0 {
            return Some(Single::of_whole(scale).over(fields, Single::of_whole(tick)));
        }
    }
    None
}

/// The H.264 usability information at `p`: frame rate (two ticks to a frame) and
/// transfer characteristic.
pub open spec fn h264_vui(b: Seq<u8>, p: nat) -> (Option<Single>, Option<Seq<char>>) {
    let (transfer, p) = vui_head(b, p);
    (vui_rate(b, p, 2), transfer)
}

pub fn parse_h264_vui(r: &mut BitReader) -> (v: (Option<Single>, Option<String>))
    requires
        old(r).wf(),
    ensures
        (v.0, opt_text(v.1)) == h264_vui(old(r).bytes@, old(r).pos()),
{
    let transfer = read_vui_head(r);
    let rate = read_vui_rate(r, 2);
    (rate, transfer)
}

/// The HEVC usability information at `p`: frame rate (one tick to a frame) and
/// transfer characteristic.
pub open spec fn hevc_vui(b: Seq<u8>, p: nat) -> (Option<Single>, Option<Seq<char>>) {
    let (transfer, p) = vui_head(b, p);
    let p = bit(b, bit(b, bit(b, p).1).1).1;
    let (window, p) = soft_bit(b, p);
    let p = if window == 1 {
        ue(b, ue(b, ue(b, ue(b, p).1).1).1).1
    } else {
        p
    };
    (vui_rate(b, p, 1), transfer)
}

pub fn parse_hevc_vui(r: &mut BitReader) -> (v: (Option<Single>, Option<String>))
    requires
        old(r).wf(),
    ensures
        (v.0, opt_text(v.1)) == hevc_vui(old(r).bytes@, old(r).pos()),
{
    let transfer = read_vui_head(r);
    let _ = r.read_bit();
    let _ = r.read_bit();
    let _ = r.read_bit();
    let window: u8 = read_soft_bit(r);
    if window == 1 {
        let _ = r.read_ue();
        let _ = r.read_ue();
        let _ = r.read_ue();
        let _ = r.read_ue();
    }
    let rate = read_vui_rate(r, 1);
    (rate, transfer)
}

// --- H.264 SPS --------------------------------------------------------------------------

/// The profiles whose parameter sets carry chroma format and bit depth.
pub open spec fn extended_profile(profile_idc: nat) -> bool {
    ||| profile_idc == 100 || profile_idc == 110 || profile_idc == 122 || profile_idc == 244
    ||| profile_idc == 44 || profile_idc == 83 || profile_idc == 86 || profile_idc == 118
    ||| profile_idc == 128 || profile_idc == 138 || profile_idc == 139 || profile_idc == 134
    ||| profile_idc == 135
}

fn is_extended_profile(profile_idc: u64) -> (r: bool)
    ensures
        r == extended_profile(profile_idc as nat),
{
    matches!(profile_idc, 100 | 110 | 122 | 244 | 44 | 83 | 86 | 118 | 128 | 138 | 139 | 134 | 135)
}

/// The remainder by 256 that carries the sign of `x`.
pub open spec fn signed_mod_256(x: int) -> int {
    if x >= 0 {
        x % 256
    } else {
        -((-x) % 256)
    }
}

/// The cursor behind `n` entries of a scaling list. An entry is a delta to the last
/// scale that was not zero; a scale of zero ends the deltas.
pub open spec fn scaling_list(b: Seq<u8>, c: Option<nat>, n: nat, last: int, next: int) -> Option<nat>
    decreases n,
{
    if n == 0 || next == 0 {
        c
    } else {
        let (delta, c) = next_se(b, c);
        let scale = signed_mod_256(last + delta + 256);
        scaling_list(b, c, (n - 1) as nat, if scale != 0 { scale } else { last }, scale)
    }
}

/// The cursor behind the scaling lists `i` to `n`, each of which may be absent.
pub open spec fn scaling_lists(b: Seq<u8>, c: Option<nat>, i: nat, n: nat) -> Option<nat>
    decreases n - i,
{
    if i >= n {
        c
    } else {
        let (present, c) = next_bit(b, c);
        let c = if present == 1 {
            scaling_list(b, c, if i < 6 { 16 } else { 64 }, 8, 8)
        } else {
            c
        };
        scaling_lists(b, c, i + 1, n)
    }
}

proof fn lemma_scaling_none(b: Seq<u8>, n: nat, last: int, next: int)
    ensures
        scaling_list(b, None, n, last, next) is None,
    decreases n,
{
    if n > 0 && next != 0 {
        let scale = signed_mod_256(last + 0 + 256);
        lemma_scaling_none(b, (n - 1) as nat, if scale != 0 { scale } else { last }, scale);
    }
}

proof fn lemma_scaling_lists_none(b: Seq<u8>, i: nat, n: nat)
    ensures
        scaling_lists(b, None, i, n) is None,
    decreases n - i,
{
    if i < n {
        lemma_scaling_none(b, if i < 6 { 16 } else { 64 }, 8, 8);
        lemma_scaling_lists_none(b, i + 1, n);
    }
}

fn skip_scaling_list(r: &mut BitReader, n: usize) -> (ok: bool)
    requires
        old(r).wf(),
    ensures
        final(r).wf(),
        final(r).bytes == old(r).bytes,
        scaling_list(old(r).bytes@, Some(old(r).pos()), n as nat, 8, 8) == if ok { Some(final(r).pos()) } else { None },
{
    let ghost b = r.bytes@;
    let ghost start = scaling_list(b, Some(r.pos()), n as nat, 8, 8);
    let mut last: i64 = 8;
    let mut next: i64 = 8;
    let mut i: usize = 0;
    while i < n
        invariant
            i <= n,
            r.wf(),
            r.bytes == old(r).bytes,
            b == r.bytes@,
            -256 < last < 256,
            -256 < next < 256,
            scaling_list(b, Some(r.pos()), (n - i) as nat, last as int, next as int) == start,
            start == scaling_list(old(r).bytes@, Some(old(r).pos()), n as nat, 8, 8),
        decreases n - i,
    {
        if next != 0 {
            let delta: i64 = match r.read_se() {
                Some(d) => d,
                None => {
                    proof {
                        let scale = signed_mod_256(last + 0 + 256);
                        lemma_scaling_none(b, (n - i - 1) as nat, if scale != 0 { scale } else { last as int }, scale);
                    }
                    return false;
                },
            };
            let sum: i64 = last + delta + 256;
            next = if sum >= 0 {
                sum % 256
            } else {
                -((-sum) % 256)
            };
            if next != 0 {
                last = next;
            }
        }
        i = i + 1;
    }
    true
}

fn skip_scaling_lists(r: &mut BitReader, n: usize) -> (ok: bool)
    requires
        old(r).wf(),
    ensures
        final(r).wf(),
        final(r).bytes == old(r).bytes,
        scaling_lists(old(r).bytes@, Some(old(r).pos()), 0, n as nat) == if ok { Some(final(r).pos()) } else { None },
{
    let ghost b = r.bytes@;
    let ghost start = scaling_lists(b, Some(r.pos()), 0, n as nat);
    let mut i: usize = 0;
    while i < n
        invariant
            i <= n,
            r.wf(),
            r.bytes == old(r).bytes,
            b == r.bytes@,
            scaling_lists(b, Some(r.pos()), i as nat, n as nat) == start,
            start == scaling_lists(old(r).bytes@, Some(old(r).pos()), 0, n as nat),
        decreases n - i,
    {
        proof {
            lemma_scaling_lists_none(b, (i + 1) as nat, n as nat);
        }
        let present: u8 = match r.read_bit() {
            Some(v) => v,
            None => {
                return false;
            },
        };
        if present == 1 {
            let size: usize = if i < 6 {
                16
            } else {
                64
            };
            if !skip_scaling_list(r, size) {
                return false;
            }
        }
        i = i + 1;
    }
    true
}

/// Chroma format, separate colour planes and luma depth minus 8 of an H.264 SPS; those
/// of 8-bit 4:2:0 where the profile carries none of them.
pub struct Chroma {
    pub format_idc: u64,
    pub separate_planes: u8,
    pub depth_minus8: u64,
}

pub open spec fn h264_chroma(b: Seq<u8>, c: Option<nat>, profile_idc: nat) -> (Chroma, Option<nat>) {
    if extended_profile(profile_idc) {
        let (format, c) = next_ue(b, c);
        let (planes, c) = if format == 3 {
            next_bit(b, c)
        } else {
            (0, c)
        };
        let (depth, c) = next_ue(b, c);
        let (_chroma_depth, c) = next_ue(b, c);
        let (_qpprime, c) = next_bit(b, c);
        let (matrix, c) = next_bit(b, c);
        let c = if matrix == 1 {
            scaling_lists(b, c, 0, if format != 3 { 8 } else { 12 })
        } else {
            c
        };
        (Chroma { format_idc: format as u64, separate_planes: planes as u8, depth_minus8: depth as u64 }, c)
    } else {
        (Chroma { format_idc: 1, separate_planes: 0, depth_minus8: 0 }, c)
    }
}

fn read_h264_chroma(r: &mut BitReader, profile_idc: u64) -> (v: Option<Chroma>)
    requires
        old(r).wf(),
    ensures
        final(r).wf(),
        final(r).bytes == old(r).bytes,
        match v {
            Some(f) => h264_chroma(old(r).bytes@, Some(old(r).pos()), profile_idc as nat) == (f, Some(final(r).pos()))
                && f.depth_minus8 < 0x2_0000_0000,
            None => h264_chroma(old(r).bytes@, Some(old(r).pos()), profile_idc as nat).1 is None,
        },
{
    if !is_extended_profile(profile_idc) {
        return Some(Chroma { format_idc: 1, separate_planes: 0, depth_minus8: 0 });
    }
    proof {
        lemma_scaling_lists_none(r.bytes@, 0, 8);
        lemma_scaling_lists_none(r.bytes@, 0, 12);
    }
    let format_idc: u64 = r.read_ue()?;
    let mut separate_planes: u8 = 0;
    if format_idc == 3 {
        separate_planes = r.read_bit()?;
    }
    let depth_minus8: u64 = r.read_ue()?;
    let _ = r.read_ue()?;
    let _ = r.read_bit()?;
    let matrix: u8 = r.read_bit()?;
    if matrix == 1 {
        let n: usize = if format_idc != 3 {
            8
        } else {
            12
        };
        if !skip_scaling_lists(r, n) {
            return None;
        }
    }
    Some(Chroma { format_idc, separate_planes, depth_minus8 })
}

/// The picture order count fields of an H.264 SPS.
pub struct OrderCount {
    pub kind: u64,
    pub log2_lsb_minus4: Option<u64>,
    pub delta_always_zero: Option<u8>,
}

pub open spec fn h264_order_count(b: Seq<u8>, c: Option<nat>) -> (OrderCount, Option<nat>) {
    let (kind, c) = next_ue(b, c);
    if kind == 0 {
        let (lsb, c) = next_ue(b, c);
        (OrderCount { kind: 0, log2_lsb_minus4: Some(lsb as u64), delta_always_zero: None }, c)
    } else if kind == 1 {
        let (zero, c) = next_bit(b, c);
        let (_non_ref, c) = next_se(b, c);
        let (_top_to_bottom, c) = next_se(b, c);
        let (cycle, c) = next_ue(b, c);
        (OrderCount { kind: 1, log2_lsb_minus4: None, delta_always_zero: Some(zero as u8) }, skip_ses(b, c, cycle))
    } else {
        (OrderCount { kind: kind as u64, log2_lsb_minus4: None, delta_always_zero: None }, c)
    }
}

fn read_h264_order_count(r: &mut BitReader) -> (v: Option<OrderCount>)
    requires
        old(r).wf(),
    ensures
        final(r).wf(),
        final(r).bytes == old(r).bytes,
        match v {
            Some(f) => h264_order_count(old(r).bytes@, Some(old(r).pos())) == (f, Some(final(r).pos())),
            None => h264_order_count(old(r).bytes@, Some(old(r).pos())).1 is None,
        },
{
    let ghost b = r.bytes@;
    let ghost start = h264_order_count(b, Some(r.pos()));
    let kind: u64 = r.read_ue()?;
    if kind == 0 {
        let lsb: u64 = r.read_ue()?;
        return Some(OrderCount { kind, log2_lsb_minus4: Some(lsb), delta_always_zero: None });
    }
    if kind == 1 {
        proof {
            lemma_skip_none(b, 0, 0);
        }
        let zero: u8 = r.read_bit()?;
        let _ = r.read_se()?;
        let _ = r.read_se()?;
        let cycle: u64 = r.read_ue()?;
        let mut i: u64 = 0;
        while i < cycle
            invariant
                i <= cycle,
                r.wf(),
                r.bytes == old(r).bytes,
                b == r.bytes@,
                start.1 == skip_ses(b, Some(r.pos()), (cycle - i) as nat),
                start == h264_order_count(old(r).bytes@, Some(old(r).pos())),
            decreases cycle - i,
        {
            proof {
                lemma_skip_none(b, 0, (cycle - i - 1) as nat);
            }
            let _ = r.read_se()?;
            i = i + 1;
        }
        return Some(OrderCount { kind, log2_lsb_minus4: None, delta_always_zero: Some(zero) });
    }
    Some(OrderCount { kind, log2_lsb_minus4: None, delta_always_zero: None })
}

/// The luma samples that one cropping unit takes up, across and down.
pub open spec fn crop_unit(chroma_format_idc: nat) -> (nat, nat) {
    if chroma_format_idc == 1 {
        (2, 2)
    } else if chroma_format_idc == 2 {
        (2, 1)
    } else {
        (1, 1)
    }
}

fn crop_units(chroma_format_idc: u64) -> (r: (u64, u64))
    ensures
        (r.0 as nat, r.1 as nat) == crop_unit(chroma_format_idc as nat),
        1 <= r.0 <= 2,
        1 <= r.1 <= 2,
{
    match chroma_format_idc {
        1 => (2, 2),
        2 => (2, 1),
        _ => (1, 1),
    }
}

/// What is left of `raw` samples when `cropped` are taken off, modulo 2^32.
pub open spec fn cropped_size(raw: nat, cropped: nat) -> u32 {
    (if raw >= cropped {
        (raw - cropped) as nat % 0x1_0000_0000
    } else {
        0
    }) as u32
}

fn crop_size(raw: u64, cropped: u64) -> (r: u32)
    ensures
        r == cropped_size(raw as nat, cropped as nat),
{
    let left: u64 = raw.saturating_sub(cropped);
    assert(left as u32 == left % 0x1_0000_0000) by (bit_vector);
    #[verifier::truncate]
    let r: u32 = left as u32;
    r
}

/// The four cropping offsets behind their flag: left, right, top, bottom.
pub open spec fn crop_offsets(b: Seq<u8>, c: Option<nat>) -> ((nat, nat, nat, nat), Option<nat>) {
    let (flag, c) = next_bit(b, c);
    if flag == 1 {
        let (l, c) = next_ue(b, c);
        let (r, c) = next_ue(b, c);
        let (t, c) = next_ue(b, c);
        let (m, c) = next_ue(b, c);
        ((l, r, t, m), c)
    } else {
        ((0, 0, 0, 0), c)
    }
}

fn read_crop_offsets(r: &mut BitReader) -> (v: Option<(u64, u64, u64, u64)>)
    requires
        old(r).wf(),
    ensures
        final(r).wf(),
        final(r).bytes == old(r).bytes,
        match v {
            Some(f) => crop_offsets(old(r).bytes@, Some(old(r).pos())) == (
                (f.0 as nat, f.1 as nat, f.2 as nat, f.3 as nat),
                Some(final(r).pos()),
            ) && f.0 < 0x2_0000_0000 && f.1 < 0x2_0000_0000 && f.2 < 0x2_0000_0000 && f.3 < 0x2_0000_0000,
            None => crop_offsets(old(r).bytes@, Some(old(r).pos())).1 is None,
        },
{
    let flag: u8 = r.read_bit()?;
    if flag == 1 {
        let left: u64 = r.read_ue()?;
        let right: u64 = r.read_ue()?;
        let top: u64 = r.read_ue()?;
        let bottom: u64 = r.read_ue()?;
        Some((left, right, top, bottom))
    } else {
        Some((0, 0, 0, 0))
    }
}

/// The fields of an H.264 SPS up to its picture size.
pub struct Front {
    pub id: u64,
    pub chroma: Chroma,
    pub log2_frame_num_minus4: u64,
    pub order: OrderCount,
    pub ref_frames: u64,
}

pub open spec fn h264_front(b: Seq<u8>) -> (Front, Option<nat>) {
    let (profile, c) = next_bits(b, Some(0), 8);
    let (_constraints, c) = next_bits(b, c, 8);
    let (_level, c) = next_bits(b, c, 8);
    let (id, c) = next_ue(b, c);
    let (chroma, c) = h264_chroma(b, c, profile);
    let (log2_frame_num, c) = next_ue(b, c);
    let (order, c) = h264_order_count(b, c);
    let (ref_frames, c) = next_ue(b, c);
    let (_gaps, c) = next_bit(b, c);
    (
        Front {
            id: id as u64,
            chroma,
            log2_frame_num_minus4: log2_frame_num as u64,
            order,
            ref_frames: ref_frames as u64,
        },
        c,
    )
}

#[verifier::rlimit(30)]
fn read_h264_front(r: &mut BitReader) -> (v: Option<Front>)
    requires
        old(r).wf(),
        old(r).pos() == 0,
    ensures
        final(r).wf(),
        final(r).bytes == old(r).bytes,
        match v {
            Some(f) => h264_front(old(r).bytes@) == (f, Some(final(r).pos())) && f.chroma.depth_minus8 < 0x2_0000_0000,
            None => h264_front(old(r).bytes@).1 is None,
        },
{
    let ghost b = r.bytes@;
    proof {
        lemma_scaling_lists_none(b, 0, 8);
        lemma_scaling_lists_none(b, 0, 12);
        lemma_skip_none(b, 0, 0);
    }
    let profile_idc: u64 = r.read_bits(8)?;
    let _ = r.read_bits(8)?;
    let _ = r.read_bits(8)?;
    let id: u64 = r.read_ue()?;
    let chroma = read_h264_chroma(r, profile_idc)?;
    let log2_frame_num_minus4: u64 = r.read_ue()?;
    let order = read_h264_order_count(r)?;
    let ref_frames: u64 = r.read_ue()?;
    let _ = r.read_bit()?;
    Some(Front { id, chroma, log2_frame_num_minus4, order, ref_frames })
}

/// The picture of an H.264 SPS: its size after cropping, and whether all its pictures
/// are frames.
pub struct Picture {
    pub width: u32,
    pub height: u32,
    pub frames_only: u8,
}

pub open spec fn h264_picture(b: Seq<u8>, c: Option<nat>, chroma_format_idc: nat) -> (Picture, Option<nat>) {
    let (width_mbs, c) = next_ue(b, c);
    let (height_units, c) = next_ue(b, c);
    let (frames_only, c) = next_bit(b, c);
    let (_adaptive, c) = if frames_only == 0 {
        next_bit(b, c)
    } else {
        (0, c)
    };
    let (_direct, c) = next_bit(b, c);
    let (crop, c) = crop_offsets(b, c);
    let (unit_w, unit_h) = crop_unit(chroma_format_idc);
    let fields = (2 - frames_only) as nat;
    (
        Picture {
            width: cropped_size((width_mbs + 1) * 16, (crop.0 + crop.1) * unit_w),
            height: cropped_size((height_units + 1) * 16 * fields, (crop.2 + crop.3) * unit_h * fields),
            frames_only: frames_only as u8,
        },
        c,
    )
}

#[verifier::rlimit(30)]
fn read_h264_picture(r: &mut BitReader, chroma_format_idc: u64) -> (v: Option<Picture>)
    requires
        old(r).wf(),
    ensures
        final(r).wf(),
        final(r).bytes == old(r).bytes,
        match v {
            Some(f) => h264_picture(old(r).bytes@, Some(old(r).pos()), chroma_format_idc as nat) == (
                f,
                Some(final(r).pos()),
            ),
            None => h264_picture(old(r).bytes@, Some(old(r).pos()), chroma_format_idc as nat).1 is None,
        },
{
    let width_mbs: u64 = r.read_ue()?;
    let height_units: u64 = r.read_ue()?;
    let frames_only: u8 = r.read_bit()?;
    if frames_only == 0 {
        let _ = r.read_bit()?;
    }
    let _ = r.read_bit()?;
    let (left, right, top, bottom) = read_crop_offsets(r)?;
    let (unit_w, unit_h) = crop_units(chroma_format_idc);
    let fields: u64 = 2 - frames_only as u64;
    assert((left + right) * unit_w <= 0x4_0000_0000 * 2) by (nonlinear_arith)
        requires
            left < 0x2_0000_0000,
            right < 0x2_0000_0000,
            unit_w <= 2,
    ;
    assert((top + bottom) * unit_h <= 0x4_0000_0000 * 2) by (nonlinear_arith)
        requires
            top < 0x2_0000_0000,
            bottom < 0x2_0000_0000,
            unit_h <= 2,
    ;
    assert((top + bottom) * unit_h * fields <= 0x8_0000_0000 * 2) by (nonlinear_arith)
        requires
            0 <= (top + bottom) * unit_h <= 0x8_0000_0000,
            fields <= 2,
    ;
    assert((height_units + 1) * 16 * fields <= 0x20_0000_0000 * 2) by (nonlinear_arith)
        requires
            height_units < 0x2_0000_0000,
            fields <= 2,
    ;
    let width = crop_size((width_mbs + 1) * 16, (left + right) * unit_w);
    let height = crop_size((height_units + 1) * 16 * fields, (top + bottom) * unit_h * fields);
    Some(Picture { width, height, frames_only })
}

/// The H.264 sequence parameter set in the payload `b`; `None` where the data ends
/// before its usability information.
pub open spec fn h264_sps(b: Seq<u8>) -> Option<SpsView> {
    let (front, c) = h264_front(b);
    let (picture, c) = h264_picture(b, c, front.chroma.format_idc as nat);
    match c {
        None => None,
        Some(p) => {
            let (vui, p) = soft_bit(b, p);
            let (rate, transfer) = if vui == 1 {
                h264_vui(b, p)
            } else {
                (None, None)
            };
            Some(
                SpsView {
                    width: Some(picture.width),
                    height: Some(picture.height),
                    framerate: rate,
                    pix_fmt: Some(pix_fmt_name(front.chroma.format_idc as nat, front.chroma.depth_minus8 as nat + 8)),
                    color_transfer: transfer,
                    seq_parameter_set_id: Some(front.id),
                    num_ref_frames: Some(front.ref_frames),
                    log2_max_frame_num_minus4: Some(front.log2_frame_num_minus4),
                    pic_order_cnt_type: Some(front.order.kind),
                    log2_max_pic_order_cnt_lsb_minus4: front.order.log2_lsb_minus4,
                    delta_pic_order_always_zero_flag: front.order.delta_always_zero,
                    frame_mbs_only_flag: Some(picture.frames_only),
                    separate_colour_plane_flag: Some(front.chroma.separate_planes),
                },
            )
        },
    }
}

/// Reads an H.264 sequence parameter set from its payload (without the NAL header and
/// without emulation-prevention bytes).
pub fn parse_h264_sps(rbsp: &[u8]) -> (v: Option<SpsInfo>)
    ensures
        match v {
            Some(s) => h264_sps(rbsp@) == Some(s@),
            None => h264_sps(rbsp@) is None,
        },
{
    let mut r = BitReader::new(rbsp);
    let front = read_h264_front(&mut r)?;
    let picture = read_h264_picture(&mut r, front.chroma.format_idc)?;
    let vui: u8 = read_soft_bit(&mut r);
    let mut rate: Option<Single> = None;
    let mut transfer: Option<String> = None;
    if vui == 1 {
        let (f, t) = parse_h264_vui(&mut r);
        rate = f;
        transfer = t;
    }
    Some(
        SpsInfo {
            width: Some(picture.width),
            height: Some(picture.height),
            framerate: rate,
            pix_fmt: Some(map_pix_fmt(front.chroma.format_idc, front.chroma.depth_minus8 + 8)),
            color_transfer: transfer,
            seq_parameter_set_id: Some(front.id),
            num_ref_frames: Some(front.ref_frames),
            log2_max_frame_num_minus4: Some(front.log2_frame_num_minus4),
            pic_order_cnt_type: Some(front.order.kind),
            log2_max_pic_order_cnt_lsb_minus4: front.order.log2_lsb_minus4,
            delta_pic_order_always_zero_flag: front.order.delta_always_zero,
            frame_mbs_only_flag: Some(picture.frames_only),
            separate_colour_plane_flag: Some(front.chroma.separate_planes),
        },
    )
}

// --- HEVC SPS ---------------------------------------------------------------------------

/// The cursor behind the presence flags of `n` sub-layers, and what the flags say.
pub open spec fn sub_layer_flags(b: Seq<u8>, c: Option<nat>, n: nat) -> (Seq<(nat, nat)>, Option<nat>)
    decreases n,
{
    if n == 0 {
        (Seq::empty(), c)
    } else {
        let (before, c) = sub_layer_flags(b, c, (n - 1) as nat);
        let (profile, c) = next_bit(b, c);
        let (level, c) = next_bit(b, c);
        (before.push((profile, level)), c)
    }
}

/// The cursor behind the profile and level fields of the first `n` sub-layers.
pub open spec fn sub_layer_fields(b: Seq<u8>, c: Option<nat>, flags: Seq<(nat, nat)>, n: nat) -> Option<nat>
    decreases n,
{
    if n == 0 {
        c
    } else {
        let c = sub_layer_fields(b, c, flags, (n - 1) as nat);
        let (profile, level) = flags[n - 1];
        let c = if profile == 1 {
            next_bits(b, next_bits(b, next_bits(b, c, 8).1, 32).1, 48).1
        } else {
            c
        };
        if level == 1 {
            next_bits(b, c, 8).1
        } else {
            c
        }
    }
}

/// The cursor behind the profile, tier and level structure with `n` sub-layers.
pub open spec fn profile_tier_level(b: Seq<u8>, c: Option<nat>, n: nat) -> Option<nat> {
    let c = next_bits(b, next_bits(b, next_bits(b, next_bits(b, c, 8).1, 32).1, 48).1, 8).1;
    if n == 0 {
        c
    } else {
        let (flags, c) = sub_layer_flags(b, c, n);
        let c = if n < 8 {
            skip_fields(b, c, 2, (8 - n) as nat)
        } else {
            c
        };
        sub_layer_fields(b, c, flags, n)
    }
}

proof fn lemma_sub_layers_none(b: Seq<u8>, flags: Seq<(nat, nat)>, n: nat)
    ensures
        sub_layer_flags(b, None, n).1 is None,
        sub_layer_fields(b, None, flags, n) is None,
    decreases n,
{
    if n > 0 {
        lemma_sub_layers_none(b, flags, (n - 1) as nat);
    }
}

/// Once the first `i` sub-layers lead nowhere, neither do the first `n`.
proof fn lemma_sub_layers_stuck(b: Seq<u8>, c: Option<nat>, flags: Seq<(nat, nat)>, i: nat, n: nat)
    requires
        i <= n,
    ensures
        sub_layer_flags(b, c, i).1 is None ==> sub_layer_flags(b, c, n).1 is None,
        sub_layer_fields(b, c, flags, i) is None ==> sub_layer_fields(b, c, flags, n) is None,
        sub_layer_flags(b, c, n).0.len() == n,
    decreases n,
{
    if n > i {
        lemma_sub_layers_stuck(b, c, flags, i, (n - 1) as nat);
    } else if n > 0 {
        lemma_sub_layers_stuck(b, c, flags, (n - 1) as nat, (n - 1) as nat);
    }
}

/// Skips the profile, tier and level structure.
#[verifier::rlimit(40)]
pub fn skip_hevc_profile_tier_level(r: &mut BitReader, max_sub_layers: usize) -> (ok: Option<()>)
    requires
        old(r).wf(),
    ensures
        final(r).wf(),
        final(r).bytes == old(r).bytes,
        profile_tier_level(old(r).bytes@, Some(old(r).pos()), max_sub_layers as nat) == if ok is Some {
            Some(final(r).pos())
        } else {
            None
        },
{
    let ghost b = r.bytes@;
    let ghost n = max_sub_layers as nat;
    let ghost all = profile_tier_level(b, Some(r.pos()), n);
    proof {
        lemma_skip_none(b, 2, (8 - n) as nat);
        assert forall|f: Seq<(nat, nat)>| #[trigger] sub_layer_fields(b, None, f, n) is None by {
            lemma_sub_layers_none(b, f, n);
        }
        lemma_sub_layers_none(b, Seq::empty(), n);
    }
    let _ = r.read_bits(8)?;
    let _ = r.read_bits(32)?;
    let _ = r.read_bits(48)?;
    let _ = r.read_bits(8)?;
    if max_sub_layers == 0 {
        return Some(());
    }
    let mut flags: Vec<(u8, u8)> = Vec::new();
    let ghost c0 = Some(r.pos());
    let ghost whole = sub_layer_flags(b, c0, n);
    let ghost behind = if n < 8 {
        skip_fields(b, whole.1, 2, (8 - n) as nat)
    } else {
        whole.1
    };
    assert(all == sub_layer_fields(b, behind, whole.0, n));
    let mut i: usize = 0;
    while i < max_sub_layers
        invariant
            i <= max_sub_layers,
            n == max_sub_layers,
            r.wf(),
            r.bytes == old(r).bytes,
            b == r.bytes@,
            whole == sub_layer_flags(b, c0, n),
            behind == if n < 8 {
                skip_fields(b, whole.1, 2, (8 - n) as nat)
            } else {
                whole.1
            },
            all == sub_layer_fields(b, behind, whole.0, n),
            all == profile_tier_level(old(r).bytes@, Some(old(r).pos()), n),
            flags@.len() == i,
            sub_layer_flags(b, c0, i as nat).1 == Some(r.pos()),
            sub_layer_flags(b, c0, i as nat).0.len() == i,
            forall|j: int|
                0 <= j < i ==> sub_layer_flags(b, c0, i as nat).0[j] == (
                    (#[trigger] flags@[j]).0 as nat,
                    flags@[j].1 as nat,
                ),
        decreases max_sub_layers - i,
    {
        proof {
            lemma_sub_layers_stuck(b, c0, whole.0, (i + 1) as nat, n);
            lemma_skip_none(b, 2, (8 - n) as nat);
            lemma_sub_layers_none(b, whole.0, n);
        }
        let profile: u8 = r.read_bit()?;
        let level: u8 = r.read_bit()?;
        flags.push((profile, level));
        i = i + 1;
    }
    let mut k: usize = max_sub_layers;
    while k < 8
        invariant
            n == max_sub_layers,
            max_sub_layers <= k,
            k <= 8 || k == max_sub_layers,
            r.wf(),
            r.bytes == old(r).bytes,
            b == r.bytes@,
            all == sub_layer_fields(b, behind, whole.0, n),
            all == profile_tier_level(old(r).bytes@, Some(old(r).pos()), n),
            behind == if k < 8 {
                skip_fields(b, Some(r.pos()), 2, (8 - k) as nat)
            } else {
                Some(r.pos())
            },
        decreases 8 - k,
    {
        proof {
            lemma_skip_none(b, 2, (8 - k - 1) as nat);
            lemma_sub_layers_none(b, whole.0, n);
        }
        let _ = r.read_bits(2)?;
        k = k + 1;
    }
    let ghost c1 = Some(r.pos());
    let mut m: usize = 0;
    while m < max_sub_layers
        invariant
            m <= max_sub_layers,
            n == max_sub_layers,
            r.wf(),
            r.bytes == old(r).bytes,
            b == r.bytes@,
            all == sub_layer_fields(b, c1, whole.0, n),
            all == profile_tier_level(old(r).bytes@, Some(old(r).pos()), n),
            flags@.len() == n,
            forall|j: int|
                0 <= j < n ==> whole.0[j] == ((#[trigger] flags@[j]).0 as nat, flags@[j].1 as nat),
            sub_layer_fields(b, c1, whole.0, m as nat) == Some(r.pos()),
        decreases max_sub_layers - m,
    {
        proof {
            lemma_sub_layers_stuck(b, c1, whole.0, (m + 1) as nat, n);
        }
        let (profile, level) = flags[m];
        if profile == 1 {
            let _ = r.read_bits(8)?;
            let _ = r.read_bits(32)?;
            let _ = r.read_bits(48)?;
        }
        if level == 1 {
            let _ = r.read_bits(8)?;
        }
        m = m + 1;
    }
    Some(())
}

/// Moves the cursor behind an Exp-Golomb code, or behind what is left of one.
pub open spec fn pass_ue(b: Seq<u8>, c: Option<nat>) -> Option<nat> {
    match c {
        None => None,
        Some(p) => Some(ue(b, p).1),
    }
}

/// Moves the cursor behind `n` Exp-Golomb codes, or behind what is left of them.
pub open spec fn pass_ues(b: Seq<u8>, c: Option<nat>, n: nat) -> Option<nat>
    decreases n,
{
    if n == 0 {
        c
    } else {
        pass_ues(b, pass_ue(b, c), (n - 1) as nat)
    }
}

/// Moves the cursor behind a bit, where there is one.
pub open spec fn pass_bit(b: Seq<u8>, c: Option<nat>) -> Option<nat> {
    match c {
        None => None,
        Some(p) => Some(bit(b, p).1),
    }
}

/// Moves the cursor behind a field of `n` bits, or behind what is left of it.
pub open spec fn pass_bits(b: Seq<u8>, c: Option<nat>, n: nat) -> Option<nat> {
    match c {
        None => None,
        Some(p) => Some(bits(b, p, n).1),
    }
}

fn pass_codes(r: &mut BitReader, n: usize)
    requires
        old(r).wf(),
    ensures
        final(r).wf(),
        final(r).bytes == old(r).bytes,
        pass_ues(old(r).bytes@, Some(old(r).pos()), n as nat) == Some(final(r).pos()),
{
    let ghost b = r.bytes@;
    let ghost all = pass_ues(b, Some(r.pos()), n as nat);
    let mut i: usize = 0;
    while i < n
        invariant
            i <= n,
            r.wf(),
            r.bytes == old(r).bytes,
            b == r.bytes@,
            all == pass_ues(b, Some(r.pos()), (n - i) as nat),
        decreases n - i,
    {
        let _ = r.read_ue();
        i = i + 1;
    }
}

/// Behind the scaling lists of an HEVC SPS; `None` where it spells them out.
pub open spec fn hevc_lists_end(b: Seq<u8>, p: nat, sub_layers_minus1: nat) -> Option<nat> {
    let c = pass_ue(b, Some(p));
    let (ordering, c) = next_bit(b, c);
    let c = pass_ues(b, c, 3 * (if ordering == 1 { sub_layers_minus1 + 1 } else { 1 }));
    let c = pass_ues(b, c, 6);
    let (lists, c) = next_bit(b, c);
    let (list_data, c) = if lists == 1 {
        next_bit(b, c)
    } else {
        (0, c)
    };
    if list_data == 1 {
        None
    } else {
        c
    }
}

/// From behind the scaling lists to the usability information; `None` where there are
/// reference picture sets on the way, or no such information.
pub open spec fn hevc_refs_end(b: Seq<u8>, p: nat) -> Option<nat> {
    let c = pass_bit(b, pass_bit(b, Some(p)));
    let (pcm, c) = next_bit(b, c);
    let c = if pcm == 1 {
        pass_bit(b, pass_ues(b, pass_bits(b, pass_bits(b, c, 4), 4), 2))
    } else {
        c
    };
    let (short_sets, c) = next_ue(b, c);
    let (long_refs, c) = next_bit(b, c);
    let c = pass_bit(b, pass_bit(b, c));
    let (vui, c) = next_bit(b, c);
    if short_sets > 0 || long_refs == 1 || vui == 0 {
        None
    } else {
        c
    }
}

/// Where the usability information of an HEVC SPS starts, for an SPS that is plain
/// enough to reach it: no scaling list data and no reference picture sets.
pub open spec fn hevc_vui_start(b: Seq<u8>, p: nat, sub_layers_minus1: nat) -> Option<nat> {
    match hevc_lists_end(b, p, sub_layers_minus1) {
        Some(q) => hevc_refs_end(b, q),
        None => None,
    }
}

/// Frame rate and transfer characteristic of an HEVC SPS, as far as they can be reached.
pub open spec fn hevc_vui_reached(b: Seq<u8>, p: nat, sub_layers_minus1: nat) -> (
    Option<Single>,
    Option<Seq<char>>,
) {
    match hevc_vui_start(b, p, sub_layers_minus1) {
        Some(q) => hevc_vui(b, q),
        None => (None, None),
    }
}

proof fn lemma_pass_none(b: Seq<u8>, n: nat)
    ensures
        pass_ues(b, None, n) is None,
    decreases n,
{
    if n > 0 {
        lemma_pass_none(b, (n - 1) as nat);
    }
}

fn skip_hevc_lists(r: &mut BitReader, sps_max_sub_layers_minus1: usize) -> (v: Option<()>)
    requires
        old(r).wf(),
        sps_max_sub_layers_minus1 <= 7,
    ensures
        final(r).wf(),
        final(r).bytes == old(r).bytes,
        hevc_lists_end(old(r).bytes@, old(r).pos(), sps_max_sub_layers_minus1 as nat) == if v is Some {
            Some(final(r).pos())
        } else {
            None
        },
{
    proof {
        lemma_pass_none(r.bytes@, 3);
        lemma_pass_none(r.bytes@, 6);
    }
    let _ = r.read_ue();
    let ordering: u8 = r.read_bit()?;
    if ordering == 1 {
        pass_codes(r, 3 * (sps_max_sub_layers_minus1 + 1));
    } else {
        pass_codes(r, 3);
    }
    pass_codes(r, 6);
    let lists: u8 = r.read_bit()?;
    if lists == 1 {
        let list_data: u8 = r.read_bit()?;
        if list_data == 1 {
            return None;
        }
    }
    Some(())
}

fn skip_hevc_refs(r: &mut BitReader) -> (v: Option<()>)
    requires
        old(r).wf(),
    ensures
        final(r).wf(),
        final(r).bytes == old(r).bytes,
        hevc_refs_end(old(r).bytes@, old(r).pos()) == if v is Some {
            Some(final(r).pos())
        } else {
            None
        },
{
    proof {
        lemma_pass_none(r.bytes@, 2);
    }
    let _ = r.read_bit();
    let _ = r.read_bit();
    let pcm: u8 = r.read_bit()?;
    if pcm == 1 {
        let _ = r.read_bits(4);
        let _ = r.read_bits(4);
        pass_codes(r, 2);
        let _ = r.read_bit();
    }
    let short_sets: u64 = r.read_ue()?;
    if short_sets > 0 {
        return None;
    }
    let long_refs: u8 = r.read_bit()?;
    if long_refs == 1 {
        return None;
    }
    let _ = r.read_bit();
    let _ = r.read_bit();
    let vui: u8 = r.read_bit()?;
    if vui == 0 {
        return None;
    }
    Some(())
}

/// Reads the usability information of an HEVC SPS where it can be reached.
pub fn parse_hevc_vui_best_effort(r: &mut BitReader, sps_max_sub_layers_minus1: usize) -> (v: (
    Option<Single>,
    Option<String>,
))
    requires
        old(r).wf(),
        sps_max_sub_layers_minus1 <= 7,
    ensures
        (v.0, opt_text(v.1)) == hevc_vui_reached(
            old(r).bytes@,
            old(r).pos(),
            sps_max_sub_layers_minus1 as nat,
        ),
{
    if skip_hevc_lists(r, sps_max_sub_layers_minus1).is_none() {
        return (None, None);
    }
    if skip_hevc_refs(r).is_none() {
        return (None, None);
    }
    parse_hevc_vui(r)
}

/// What is left of the picture size `raw`, taken modulo 2^32, without `crop` units of
/// `unit` samples on either side.
pub open spec fn hevc_size(raw: nat, unit: nat, crop: (nat, nat)) -> u32 {
    cropped_size(
        raw % 0x1_0000_0000,
        unit * (crop.0 % 0x1_0000_0000 + crop.1 % 0x1_0000_0000),
    )
}

fn low_32(v: u64) -> (r: u64)
    ensures
        r == v % 0x1_0000_0000,
        r < 0x1_0000_0000,
{
    v % 0x1_0000_0000
}

/// The cursor behind the fields of an HEVC SPS before its chroma format, and the number
/// of its sub-layers less one.
pub open spec fn hevc_front(b: Seq<u8>) -> (nat, Option<nat>) {
    let (_vps, c) = next_bits(b, Some(0), 4);
    let (sub_layers, c) = next_bits(b, c, 3);
    let (_nesting, c) = next_bit(b, c);
    let c = profile_tier_level(b, c, sub_layers);
    let (_id, c) = next_ue(b, c);
    (sub_layers, c)
}

proof fn lemma_profile_none(b: Seq<u8>, n: nat)
    ensures
        profile_tier_level(b, None, n) is None,
{
    lemma_skip_none(b, 2, (8 - n) as nat);
    lemma_sub_layers_none(b, sub_layer_flags(b, None, n).0, n);
}

fn read_hevc_front(r: &mut BitReader) -> (v: Option<u64>)
    requires
        old(r).wf(),
        old(r).pos() == 0,
    ensures
        final(r).wf(),
        final(r).bytes == old(r).bytes,
        match v {
            Some(n) => hevc_front(old(r).bytes@) == (n as nat, Some(final(r).pos())) && n <= 7,
            None => hevc_front(old(r).bytes@).1 is None,
        },
{
    proof {
        vstd::arithmetic::power2::lemma2_to64();
        lemma_profile_none(r.bytes@, 0);
        lemma_profile_none(r.bytes@, hevc_front(r.bytes@).0);
    }
    let _ = r.read_bits(4)?;
    let sub_layers: u64 = r.read_bits(3)?;
    let _ = r.read_bit()?;
    skip_hevc_profile_tier_level(r, sub_layers as usize)?;
    let _ = r.read_ue()?;
    Some(sub_layers)
}

/// The HEVC sequence parameter set in the payload `b`; `None` where the data ends
/// before the bit depths.
pub open spec fn hevc_sps(b: Seq<u8>) -> Option<SpsView> {
    let (sub_layers, c) = hevc_front(b);
    let (chroma, c) = next_ue(b, c);
    let (_planes, c) = if chroma == 3 {
        next_bit(b, c)
    } else {
        (0, c)
    };
    let (width, c) = next_ue(b, c);
    let (height, c) = next_ue(b, c);
    let (crop, c) = crop_offsets(b, c);
    let (depth, c) = next_ue(b, c);
    let (_chroma_depth, c) = next_ue(b, c);
    let (unit_w, unit_h) = crop_unit(chroma);
    match c {
        None => None,
        Some(p) => {
            let (rate, transfer) = hevc_vui_reached(b, p, sub_layers);
            Some(
                SpsView {
                    width: Some(hevc_size(width, unit_w, (crop.0, crop.1))),
                    height: Some(hevc_size(height, unit_h, (crop.2, crop.3))),
                    framerate: rate,
                    pix_fmt: Some(pix_fmt_name(chroma, depth + 8)),
                    color_transfer: transfer,
                    seq_parameter_set_id: None,
                    num_ref_frames: None,
                    log2_max_frame_num_minus4: None,
                    pic_order_cnt_type: None,
                    log2_max_pic_order_cnt_lsb_minus4: None,
                    delta_pic_order_always_zero_flag: None,
                    frame_mbs_only_flag: None,
                    separate_colour_plane_flag: None,
                },
            )
        },
    }
}

/// Reads an HEVC sequence parameter set from its payload (without the NAL header and
/// without emulation-prevention bytes).
#[verifier::rlimit(60)]
pub fn parse_hevc_sps(rbsp: &[u8]) -> (v: Option<SpsInfo>)
    ensures
        match v {
            Some(s) => hevc_sps(rbsp@) == Some(s@),
            None => hevc_sps(rbsp@) is None,
        },
{
    let mut r = BitReader::new(rbsp);
    let sub_layers: u64 = read_hevc_front(&mut r)?;
    let chroma: u64 = r.read_ue()?;
    if chroma == 3 {
        let _ = r.read_bit()?;
    }
    let pic_width: u64 = r.read_ue()?;
    let pic_height: u64 = r.read_ue()?;
    let (left, right, top, bottom) = read_crop_offsets(&mut r)?;
    let depth: u64 = r.read_ue()?;
    let _ = r.read_ue()?;
    let (unit_w, unit_h) = crop_units(chroma);
    let across: u64 = low_32(left) + low_32(right);
    let down: u64 = low_32(top) + low_32(bottom);
    assert(unit_w * across <= 2 * across && unit_h * down <= 2 * down) by (nonlinear_arith)
        requires
            unit_w <= 2,
            unit_h <= 2,
    ;
    let width = crop_size(low_32(pic_width), unit_w * across);
    let height = crop_size(low_32(pic_height), unit_h * down);
    let (rate, transfer) = parse_hevc_vui_best_effort(&mut r, sub_layers as usize);
    Some(
        SpsInfo {
            width: Some(width),
            height: Some(height),
            framerate: rate,
            pix_fmt: Some(map_pix_fmt(chroma, depth + 8)),
            color_transfer: transfer,
            seq_parameter_set_id: None,
            num_ref_frames: None,
            log2_max_frame_num_minus4: None,
            pic_order_cnt_type: None,
            log2_max_pic_order_cnt_lsb_minus4: None,
            delta_pic_order_always_zero_flag: None,
            frame_mbs_only_flag: None,
            separate_colour_plane_flag: None,
        },
    )
}

proof fn lemma_no_starts_between(b: Seq<u8>, from: int, to: int)
    requires
        0 <= from <= to <= b.len() + 1,
        forall|s: int| from <= s < to ==> !#[trigger] code_ends_at(b, s),
    ensures
        unit_starts(b, from) == unit_starts(b, to),
    decreases to - from,
{
    if from < to {
        assert(!code_ends_at(b, from));
        lemma_no_starts_between(b, from + 1, to);
    }
}

proof fn lemma_escaped_ending(r: Seq<u8>)
    requires
        r.len() > 0,
        r.last() != 0,
    ensures
        escape(r).len() > 0,
        escape(r).last() != 0,
    decreases r.len(),
{
    if r.len() >= 3 && r[0] == 0 && r[1] == 0 && r[2] <= 3 {
        assert(r.skip(2).last() == r.last());
        lemma_escaped_ending(r.skip(2));
    } else if r.len() > 1 {
        assert(r.skip(1).last() == r.last());
        lemma_escaped_ending(r.skip(1));
    } else {
        assert(escape(r.skip(1)) =~= Seq::empty());
    }
}

/// A stream: a unit, a sequence parameter set with its header, and what follows.
pub open spec fn stream_with_set(lead: Seq<u8>, header: Seq<u8>, set: Seq<u8>, rest: Seq<u8>) -> Seq<u8> {
    seq![0u8, 0u8, 1u8] + lead + seq![0u8, 0u8, 1u8] + header + escape(set) + seq![0u8, 0u8, 1u8] + rest
}

/// The sequence parameter set is found behind units of other types and before what follows: type 7
/// of H.264 behind a header of one byte, type 33 of HEVC behind one of two.
pub proof fn law_sets_are_found_in_their_streams(
    codec: SpsCodec,
    lead: Seq<u8>,
    header: Seq<u8>,
    set: Seq<u8>,
    rest: Seq<u8>,
)
    requires
        lead.len() > 0,
        forall|i: int| 0 <= i < lead.len() ==> #[trigger] lead[i] != 0,
        codec == SpsCodec::H264 ==> lead[0] % 32 != 7 && header.len() == 1 && header[0] % 32 == 7,
        codec == SpsCodec::Hevc ==> (lead[0] / 2) % 64 != 33 && header.len() == 2 && (header[0] / 2) % 64 == 33 && header[1] != 0,
        set.len() > 0,
        set.last() != 0,
    ensures
        sps_payload(stream_with_set(lead, header, set, rest), codec) == Some(set),
{
    let b = stream_with_set(lead, header, set, rest);
    let e = escape(set);
    let l: int = lead.len() as int;
    let h: int = header.len() as int;
    let second: int = 6 + l;
    let third: int = second + h + e.len() + 3;
    let (x, y) = (lead[0], header[0]);
    assert(x & 0x1f == x % 32 && (x >> 1) & 0x3f == (x / 2) % 64) by (bit_vector);
    assert(y & 0x1f == y % 32 && (y >> 1) & 0x3f == (y / 2) % 64) by (bit_vector);
    law_escaped_holds_no_start_code(set);
    lemma_escaped_ending(set);
    law_unescape_undoes_escape(set);
    assert(b[0] == 0 && b[1] == 0 && b[2] == 1);
    assert forall|i: int| 0 <= i < l implies b[3 + i] == #[trigger] lead[i] by {}
    assert(b[3 + l] == 0 && b[4 + l] == 0 && b[5 + l] == 1);
    assert forall|i: int| 0 <= i < h implies b[second + i] == #[trigger] header[i] by {}
    assert forall|i: int| 0 <= i < e.len() implies b[second + h + i] == #[trigger] e[i] by {}
    assert(b[third - 3] == 0 && b[third - 2] == 0 && b[third - 1] == 1);
    assert(code_ends_at(b, 3) && code_ends_at(b, second) && code_ends_at(b, third));
    assert forall|s: int| 0 <= s < 3 implies !#[trigger] code_ends_at(b, s) by {}
    assert forall|s: int| 4 <= s < second implies !#[trigger] code_ends_at(b, s) by {
        if s >= 6 {
            assert(b[3 + (s - 6)] == lead[s - 6]);
        }
    }
    assert forall|s: int| second + 1 <= s < third implies !#[trigger] code_ends_at(b, s) by {
        let i = s - 3 - second;
        if 0 <= i < h {
            assert(b[second + i] == header[i]);
        } else if i >= h {
            let k = i - h;
            assert(b[second + h + k] == e[k]);
            if k + 1 < e.len() {
                assert(b[second + h + (k + 1)] == e[k + 1]);
            }
            if k + 2 < e.len() {
                assert(b[second + h + (k + 2)] == e[k + 2]);
            }
        }
    }
    lemma_no_starts_between(b, 0, 3);
    lemma_no_starts_between(b, 4, second);
    lemma_no_starts_between(b, second + 1, third);
    let st = unit_starts(b, 0);
    let tail = unit_starts(b, third + 1);
    assert(st =~= seq![3int, second, third] + tail);
    let us = units(b);
    assert(b[third - 4] == e[e.len() - 1]) by {
        assert(b[second + h + (e.len() - 1)] == e[e.len() - 1]);
    }
    assert(us[1] == (second, third - 3));
    assert(us[0].0 == 3);
    assert(b[3] == lead[0]);
    assert(b[second] == header[0]);
    let sub = us.skip(1);
    assert(sub[0] == us[1]);
    assert(b.subrange(second + h, third - 3) =~= e);
    reveal_with_fuel(first_sps, 2);
    assert(!is_sps(b, us[0], codec));
    assert(is_sps(b, us[1], codec));
}

} // verus!
