//! H.264 slice headers, read just far enough to tell whether a slice refers to more
//! frames than its sequence parameter set allows.
use std::collections::HashMap;
use vstd::prelude::*;
use vstd::slice::slice_subrange;
use crate::bits::{BitReader, next_bit, next_bits, next_se, next_ue};
use crate::pps::{PpsInfo, find_pps_nals, pps_by_id};
use crate::sps::{SpsCodec, SpsInfo, SpsView, as_ints, h264_sps, is_sps, nal_units, parse_h264_sps, rbsp_unescape};
use crate::sps::{unescape, units};

verus! {

broadcast use vstd::std_specs::hash::group_hash_axioms;

/// Slice types 1 and 6.
pub open spec fn b_slice(slice_type: nat) -> bool {
    slice_type % 5 == 1
}

/// Slice types that refer to other frames: P, B and SP.
pub open spec fn refers(slice_type: nat) -> bool {
    slice_type % 5 == 0 || slice_type % 5 == 1 || slice_type % 5 == 3
}

/// NAL unit types that carry coded slice data.
pub open spec fn slice_nal(nal_type: u8) -> bool {
    nal_type == 1 || nal_type == 5 || nal_type == 19 || nal_type == 20
}

pub fn is_b_slice(slice_type: u64) -> (r: bool)
    ensures
        r == b_slice(slice_type as nat),
{
    slice_type % 5 == 1
}

pub fn is_p_or_b_slice(slice_type: u64) -> (r: bool)
    ensures
        r == (slice_type % 5 == 0 || slice_type % 5 == 1),
{
    slice_type % 5 == 0 || slice_type % 5 == 1
}

pub fn is_slice_nal(nal_type: u8) -> (r: bool)
    ensures
        r == slice_nal(nal_type),
{
    matches!(nal_type, 1 | 5 | 19 | 20)
}

pub open spec fn or_u64(o: Option<u64>, d: u64) -> u64 {
    match o {
        Some(v) => v,
        None => d,
    }
}

pub open spec fn or_u8(o: Option<u8>, d: u8) -> u8 {
    match o {
        Some(v) => v,
        None => d,
    }
}

/// The cursor behind the fields of a slice header from the colour plane to the IDR
/// picture id, and its field-picture flag.
pub open spec fn slice_frame(b: Seq<u8>, c: Option<nat>, sps: SpsView, nal_type: u8) -> (nat, Option<nat>) {
    let c = if or_u8(sps.separate_colour_plane_flag, 0) == 1 {
        next_bits(b, c, 2).1
    } else {
        c
    };
    let c = next_bits(b, c, or_u64(sps.log2_max_frame_num_minus4, 0) as nat + 4).1;
    let (field, c) = if or_u8(sps.frame_mbs_only_flag, 1) == 0 {
        next_bit(b, c)
    } else {
        (0, c)
    };
    let c = if field == 1 {
        next_bit(b, c).1
    } else {
        c
    };
    let c = if nal_type == 5 {
        next_ue(b, c).1
    } else {
        c
    };
    (field, c)
}

/// The cursor behind the picture order count of a slice header.
pub open spec fn slice_order(b: Seq<u8>, c: Option<nat>, sps: SpsView, bottom: bool) -> Option<nat> {
    let kind = or_u64(sps.pic_order_cnt_type, 0);
    if kind == 0 {
        let c = next_bits(b, c, or_u64(sps.log2_max_pic_order_cnt_lsb_minus4, 0) as nat + 4).1;
        if bottom {
            next_se(b, c).1
        } else {
            c
        }
    } else if kind == 1 && or_u8(sps.delta_pic_order_always_zero_flag, 1) == 0 {
        let c = next_se(b, c).1;
        if bottom {
            next_se(b, c).1
        } else {
            c
        }
    } else {
        c
    }
}

/// The larger of the two reference counts less one that a slice uses, from position `c`
/// on: those of the header where it overrides them, else the defaults. The second list
/// counts in a B slice only.
pub open spec fn slice_refs(b: Seq<u8>, c: Option<nat>, pps: PpsInfo, slice_type: nat) -> (nat, Option<nat>) {
    let (over, c) = next_bit(b, c);
    let (l0, c) = if over == 1 {
        next_ue(b, c)
    } else {
        (pps.num_ref_idx_l0_default_active_minus1 as nat, c)
    };
    let (l1, c) = if over == 1 && b_slice(slice_type) {
        next_ue(b, c)
    } else {
        (pps.num_ref_idx_l1_default_active_minus1 as nat, c)
    };
    (if b_slice(slice_type) && l1 > l0 { l1 } else { l0 }, c)
}

/// Whether a slice refers to more frames than `ref_frames`, from position `p` behind the
/// id of its picture parameter set on; `None` where the data ends in its header.
pub open spec fn slice_body(
    b: Seq<u8>,
    p: nat,
    sps: SpsView,
    pps: PpsInfo,
    slice_type: nat,
    nal_type: u8,
    ref_frames: u64,
) -> Option<bool> {
    let (field, c) = slice_frame(b, Some(p), sps, nal_type);
    let c = slice_order(b, c, sps, pps.bottom_field_pic_order_in_frame_present_flag == 1 && field == 0);
    let c = if pps.redundant_pic_cnt_present_flag == 1 {
        next_ue(b, c).1
    } else {
        c
    };
    let c = if b_slice(slice_type) {
        next_bit(b, c).1
    } else {
        c
    };
    if !refers(slice_type) {
        if c is Some {
            Some(false)
        } else {
            None
        }
    } else {
        let (active_minus1, c) = slice_refs(b, c, pps, slice_type);
        if c is Some {
            Some(active_minus1 + 1 > ref_frames)
        } else {
            None
        }
    }
}

/// Whether the slice with the payload `b` refers to more frames than its sequence
/// parameter set allows; `None` where its parameter sets are unknown or the data ends
/// in its header.
#[verifier::opaque]
pub open spec fn slice_excess(
    b: Seq<u8>,
    sps_set: Map<u64, SpsView>,
    pps_set: Map<u64, PpsInfo>,
    nal_type: u8,
) -> Option<bool> {
    let (_first_mb, c) = next_ue(b, Some(0));
    let (slice_type, c) = next_ue(b, c);
    let (pps_id, c) = next_ue(b, c);
    let pps = pps_set[pps_id as u64];
    let sps = sps_set[pps.seq_parameter_set_id];
    if c is None || !pps_set.contains_key(pps_id as u64) || !sps_set.contains_key(pps.seq_parameter_set_id)
        || sps.num_ref_frames is None {
        None
    } else {
        slice_body(b, c->0, sps, pps, slice_type, nal_type, sps.num_ref_frames->0)
    }
}

fn read_wide(r: &mut BitReader, minus4: u64) -> (v: Option<u64>)
    requires
        old(r).wf(),
    ensures
        final(r).wf(),
        final(r).bytes == old(r).bytes,
        next_bits(old(r).bytes@, Some(old(r).pos()), minus4 as nat + 4).1 == if v is Some {
            Some(final(r).pos())
        } else {
            None
        },
{
    if minus4 > 60 {
        return None;
    }
    r.read_bits(minus4 as usize + 4)
}

fn read_slice_frame(r: &mut BitReader, sps: &SpsInfo, nal_type: u8) -> (v: Option<u8>)
    requires
        old(r).wf(),
    ensures
        final(r).wf(),
        final(r).bytes == old(r).bytes,
        match v {
            Some(field) => slice_frame(old(r).bytes@, Some(old(r).pos()), sps@, nal_type) == (
                field as nat,
                Some(final(r).pos()),
            ),
            None => slice_frame(old(r).bytes@, Some(old(r).pos()), sps@, nal_type).1 is None,
        },
{
    let planes: u8 = sps.separate_colour_plane_flag.unwrap_or(0);
    if planes == 1 {
        let _ = r.read_bits(2)?;
    }
    let _ = read_wide(r, sps.log2_max_frame_num_minus4.unwrap_or(0))?;
    let mut field: u8 = 0;
    let frames_only: u8 = sps.frame_mbs_only_flag.unwrap_or(1);
    if frames_only == 0 {
        field = r.read_bit()?;
        if field == 1 {
            let _ = r.read_bit()?;
        }
    }
    if nal_type == 5 {
        let _ = r.read_ue()?;
    }
    Some(field)
}

fn skip_slice_order(r: &mut BitReader, sps: &SpsInfo, bottom: bool) -> (v: Option<()>)
    requires
        old(r).wf(),
    ensures
        final(r).wf(),
        final(r).bytes == old(r).bytes,
        slice_order(old(r).bytes@, Some(old(r).pos()), sps@, bottom) == if v is Some {
            Some(final(r).pos())
        } else {
            None
        },
{
    let kind: u64 = sps.pic_order_cnt_type.unwrap_or(0);
    let always_zero: u8 = sps.delta_pic_order_always_zero_flag.unwrap_or(1);
    if kind == 0 {
        let _ = read_wide(r, sps.log2_max_pic_order_cnt_lsb_minus4.unwrap_or(0))?;
        if bottom {
            let _ = r.read_se()?;
        }
    } else if kind == 1 && always_zero == 0 {
        let _ = r.read_se()?;
        if bottom {
            let _ = r.read_se()?;
        }
    }
    Some(())
}

fn read_slice_refs(r: &mut BitReader, pps: &PpsInfo, slice_type: u64) -> (v: Option<u64>)
    requires
        old(r).wf(),
    ensures
        match v {
            Some(n) => slice_refs(old(r).bytes@, Some(old(r).pos()), *pps, slice_type as nat).0 == n as nat && slice_refs(
                old(r).bytes@,
                Some(old(r).pos()),
                *pps,
                slice_type as nat,
            ).1 is Some,
            None => slice_refs(old(r).bytes@, Some(old(r).pos()), *pps, slice_type as nat).1 is None,
        },
{
    let over: u8 = r.read_bit()?;
    let both = is_b_slice(slice_type);
    let mut l0: u64 = pps.num_ref_idx_l0_default_active_minus1;
    let mut l1: u64 = pps.num_ref_idx_l1_default_active_minus1;
    if over == 1 {
        l0 = r.read_ue()?;
        if both {
            l1 = r.read_ue()?;
        }
    }
    if both && l1 > l0 {
        Some(l1)
    } else {
        Some(l0)
    }
}

#[verifier::rlimit(30)]
fn slice_body_excess(
    r: &mut BitReader,
    sps: &SpsInfo,
    pps: &PpsInfo,
    slice_type: u64,
    nal_type: u8,
    ref_frames: u64,
) -> (v: Option<bool>)
    requires
        old(r).wf(),
    ensures
        v == slice_body(old(r).bytes@, old(r).pos(), sps@, *pps, slice_type as nat, nal_type, ref_frames),
{
    let field: u8 = read_slice_frame(r, sps, nal_type)?;
    skip_slice_order(r, sps, pps.bottom_field_pic_order_in_frame_present_flag == 1 && field == 0)?;
    if pps.redundant_pic_cnt_present_flag == 1 {
        let _ = r.read_ue()?;
    }
    if is_b_slice(slice_type) {
        let _ = r.read_bit()?;
    }
    if !is_p_or_b_slice(slice_type) && slice_type % 5 != 3 {
        return Some(false);
    }
    let active_minus1: u64 = read_slice_refs(r, pps, slice_type)?;
    Some(active_minus1 >= ref_frames)
}

/// The contents of each sequence parameter set.
pub open spec fn sps_views(m: Map<u64, SpsInfo>) -> Map<u64, SpsView> {
    m.map_values(|s: SpsInfo| s@)
}

/// Whether one slice refers to more frames than its sequence parameter set allows.
pub fn slice_header_excess(
    rbsp: &[u8],
    sps_set: &HashMap<u64, SpsInfo>,
    pps_set: &HashMap<u64, PpsInfo>,
    nal_type: u8,
) -> (v: Option<bool>)
    ensures
        v == slice_excess(rbsp@, sps_views(sps_set@), pps_set@, nal_type),
{
    reveal(slice_excess);
    let mut r = BitReader::new(rbsp);
    let _ = r.read_ue()?;
    let slice_type: u64 = r.read_ue()?;
    let pps_id: u64 = r.read_ue()?;
    let pps = pps_set.get(&pps_id)?;
    let sps = sps_set.get(&pps.seq_parameter_set_id)?;
    let num_ref_frames: u64 = sps.num_ref_frames?;
    slice_body_excess(&mut r, sps, pps, slice_type, nal_type, num_ref_frames)
}

/// What the unit `u` says: whether the slice in it refers to too many frames; `None`
/// where it holds no slice that can be decided.
pub open spec fn unit_verdict(
    b: Seq<u8>,
    u: (int, int),
    sps_set: Map<u64, SpsView>,
    pps_set: Map<u64, PpsInfo>,
) -> Option<bool> {
    if u.1 > u.0 && slice_nal(b[u.0] & 0x1f) {
        slice_excess(unescape(b.subrange(u.0 + 1, u.1)), sps_set, pps_set, b[u.0] & 0x1f)
    } else {
        None
    }
}

/// Some unit among `us` has the verdict `v`.
pub open spec fn some_verdict(
    b: Seq<u8>,
    us: Seq<(int, int)>,
    sps_set: Map<u64, SpsView>,
    pps_set: Map<u64, PpsInfo>,
    v: bool,
) -> bool {
    exists|k: int| 0 <= k < us.len() && #[trigger] unit_verdict(b, us[k], sps_set, pps_set) == Some(v)
}

/// Whether any slice of the stream refers to more frames than its sequence parameter set
/// allows; `None` where no slice can be decided.
pub open spec fn stream_excess(b: Seq<u8>, sps_set: Map<u64, SpsView>, pps_set: Map<u64, PpsInfo>) -> Option<bool> {
    if some_verdict(b, units(b), sps_set, pps_set, true) {
        Some(true)
    } else if some_verdict(b, units(b), sps_set, pps_set, false) {
        Some(false)
    } else {
        None
    }
}

/// Walks the slices of an Annex-B stream; each is held against the sequence parameter
/// set that its picture parameter set names.
pub fn h264_excess_refs(
    es_bytes: &[u8],
    sps_set: &HashMap<u64, SpsInfo>,
    pps_set: &HashMap<u64, PpsInfo>,
) -> (v: Option<bool>)
    ensures
        v == stream_excess(es_bytes@, sps_views(sps_set@), pps_set@),
{
    let ghost b = es_bytes@;
    let list = nal_units(es_bytes);
    let mut saw_slice = false;
    let mut k: usize = 0;
    while k < list.len()
        invariant
            b == es_bytes@,
            k <= list@.len(),
            as_ints(list@) == units(b),
            forall|j: int| 0 <= j < list@.len() ==> (#[trigger] list@[j]).0 <= b.len() && list@[j].1 <= b.len(),
            forall|j: int|
                0 <= j < k ==> #[trigger] unit_verdict(b, units(b)[j], sps_views(sps_set@), pps_set@) != Some(true),
            saw_slice ==> some_verdict(b, units(b), sps_views(sps_set@), pps_set@, false),
            !saw_slice ==> forall|j: int|
                0 <= j < k ==> #[trigger] unit_verdict(b, units(b)[j], sps_views(sps_set@), pps_set@) is None,
        decreases list@.len() - k,
    {
        let (start, end) = list[k];
        proof {
            assert(as_ints(list@)[k as int] == (start as int, end as int));
        }
        if end > start && is_slice_nal(es_bytes[start] & 0x1f) {
            let rbsp = rbsp_unescape(slice_subrange(es_bytes, start + 1, end));
            let excess = slice_header_excess(&rbsp, sps_set, pps_set, es_bytes[start] & 0x1f);
            proof {
                assert(unit_verdict(b, units(b)[k as int], sps_views(sps_set@), pps_set@) == excess);
            }
            if let Some(e) = excess {
                if e {
                    return Some(true);
                }
                saw_slice = true;
            }
        }
        k = k + 1;
    }
    if saw_slice {
        Some(false)
    } else {
        None
    }
}

/// The sequence parameter set in the unit `u`, where it is one.
#[verifier::opaque]
pub open spec fn unit_sps(b: Seq<u8>, u: (int, int)) -> Option<SpsView> {
    if is_sps(b, u, SpsCodec::H264) {
        h264_sps(unescape(b.subrange(u.0 + 1, u.1)))
    } else {
        None
    }
}

/// The sequence parameter sets in the units `us` by their ids; of two with one id the
/// later one.
pub open spec fn sps_by_id(b: Seq<u8>, us: Seq<(int, int)>) -> Map<u64, SpsView>
    decreases us.len(),
{
    if us.len() == 0 {
        Map::empty()
    } else {
        let m = sps_by_id(b, us.drop_last());
        match unit_sps(b, us.last()) {
            Some(s) => match s.seq_parameter_set_id {
                Some(id) => m.insert(id, s),
                None => m,
            },
            None => m,
        }
    }
}

fn read_unit_sps(es_bytes: &[u8], start: usize, end: usize) -> (r: Option<SpsInfo>)
    requires
        start <= end <= es_bytes@.len(),
    ensures
        match r {
            Some(s) => unit_sps(es_bytes@, (start as int, end as int)) == Some(s@),
            None => unit_sps(es_bytes@, (start as int, end as int)) is None,
        },
{
    reveal(unit_sps);
    if end - start >= 2 && es_bytes[start] & 0x1f == 7 {
        parse_h264_sps(&rbsp_unescape(slice_subrange(es_bytes, start + 1, end)))
    } else {
        None
    }
}

/// Every sequence parameter set of an H.264 stream, by its id.
pub fn find_sps_nals(es_bytes: &[u8]) -> (out: HashMap<u64, SpsInfo>)
    ensures
        sps_views(out@) == sps_by_id(es_bytes@, units(es_bytes@)),
{
    let ghost b = es_bytes@;
    let list = nal_units(es_bytes);
    let mut out: HashMap<u64, SpsInfo> = HashMap::new();
    let mut k: usize = 0;
    proof {
        assert(sps_views(out@) =~= Map::empty());
    }
    while k < list.len()
        invariant
            b == es_bytes@,
            k <= list@.len(),
            as_ints(list@) == units(b),
            forall|j: int| 0 <= j < list@.len() ==> (#[trigger] list@[j]).0 <= list@[j].1 <= b.len(),
            sps_views(out@) == sps_by_id(b, units(b).take(k as int)),
        decreases list@.len() - k,
    {
        let (start, end) = list[k];
        let ghost was = out@;
        proof {
            assert(as_ints(list@)[k as int] == (start as int, end as int));
            assert(units(b).take(k + 1).drop_last() =~= units(b).take(k as int));
            assert(units(b).take(k + 1).last() == (start as int, end as int));
        }
        if let Some(sps) = read_unit_sps(es_bytes, start, end) {
            if let Some(id) = sps.seq_parameter_set_id {
                out.insert(id, sps);
                proof {
                    assert(sps_views(out@) =~= sps_views(was).insert(id, sps@));
                }
            }
        }
        k = k + 1;
    }
    proof {
        assert(units(b).take(k as int) =~= units(b));
    }
    out
}

/// Whether any slice of an H.264 stream refers to more frames than the parameter sets in the
/// stream itself allow; `None` where no slice can be decided.
pub open spec fn own_excess(es: Seq<u8>) -> Option<bool> {
    stream_excess(es, sps_by_id(es, units(es)), pps_by_id(es, units(es)))
}

/// Walks the slices of an H.264 stream, each held against the parameter sets in the stream.
pub fn walk_slices(es_bytes: &[u8]) -> (v: Option<bool>)
    ensures
        v == own_excess(es_bytes@),
{
    let sps_set = find_sps_nals(es_bytes);
    let pps_set = find_pps_nals(es_bytes);
    h264_excess_refs(es_bytes, &sps_set, &pps_set)
}

/// Without any parameter set of either kind nothing can be decided.
pub proof fn law_no_parameter_sets_no_verdict(
    b: Seq<u8>,
    sps_set: Map<u64, SpsView>,
    pps_set: Map<u64, PpsInfo>,
)
    requires
        sps_set =~= Map::empty() || pps_set =~= Map::empty(),
    ensures
        stream_excess(b, sps_set, pps_set) is None,
{
    reveal(slice_excess);
}

/// One slice that refers to more frames than it may decides for the stream; where none does, one that
/// keeps to its limit decides, and else nothing is known.
pub proof fn law_one_slice_too_many_decides(b: Seq<u8>, sps_set: Map<u64, SpsView>, pps_set: Map<u64, PpsInfo>, k: int, j: int)
    requires
        0 <= k < units(b).len(),
        0 <= j < units(b).len(),
    ensures
        unit_verdict(b, units(b)[k], sps_set, pps_set) == Some(true) ==> stream_excess(b, sps_set, pps_set) == Some(true),
        stream_excess(b, sps_set, pps_set) == Some(false) ==> unit_verdict(b, units(b)[k], sps_set, pps_set) != Some(true),
        unit_verdict(b, units(b)[j], sps_set, pps_set) == Some(false) ==> stream_excess(b, sps_set, pps_set) is Some,
        (forall|i: int| 0 <= i < units(b).len() ==> (#[trigger] unit_verdict(b, units(b)[i], sps_set, pps_set)) is None)
            ==> stream_excess(b, sps_set, pps_set) is None,
{
}

/// Slices are told by the type of their unit; other units have no verdict.
pub proof fn law_other_units_have_no_verdict(b: Seq<u8>, u: (int, int), sps_set: Map<u64, SpsView>, pps_set: Map<u64, PpsInfo>)
    requires
        0 <= u.0 < u.1 <= b.len(),
    ensures
        b[u.0] % 32 == 7 || b[u.0] % 32 == 8 || b[u.0] % 32 == 9 ==> unit_verdict(b, u, sps_set, pps_set) is None,
        b[u.0] % 32 == 1 || b[u.0] % 32 == 5 ==> unit_verdict(b, u, sps_set, pps_set) == slice_excess(
            unescape(b.subrange(u.0 + 1, u.1)),
            sps_set,
            pps_set,
            b[u.0] % 32,
        ),
{
    let x = b[u.0];
    assert(x & 0x1f == x % 32) by (bit_vector);
}

} // verus!
