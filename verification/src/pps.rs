//! H.264 picture parameter sets (PPS): the fields that a slice header needs.
use std::collections::HashMap;
use vstd::prelude::*;
use vstd::slice::slice_subrange;
use crate::bits::{BitReader, lemma_longer, lemma_longer_skip, lemma_skip_none, next_bit, next_bits, next_se, next_ue};
use crate::bits::{skip_fields, skip_ues};
use crate::sps::{as_ints, nal_units, rbsp_unescape, unescape, units};

verus! {

broadcast use vstd::std_specs::hash::group_hash_axioms;

#[derive(Debug, Clone, Copy, PartialEq, Eq, Structural)]
pub struct PpsInfo {
    pub pic_parameter_set_id: u64,
    pub seq_parameter_set_id: u64,
    pub num_ref_idx_l0_default_active_minus1: u64,
    pub num_ref_idx_l1_default_active_minus1: u64,
    pub bottom_field_pic_order_in_frame_present_flag: u8,
    pub redundant_pic_cnt_present_flag: u8,
}

/// How many binary digits `v` has; none for zero.
pub open spec fn bit_width(v: nat) -> nat
    decreases v,
{
    if v == 0 {
        0
    } else {
        1 + bit_width(v / 2)
    }
}

/// The width of a field that holds the numbers up to `v`, at least one bit.
pub open spec fn id_width(v: nat) -> nat {
    if v == 0 {
        1
    } else {
        bit_width(v)
    }
}

pub fn bits_needed_for(value: u64) -> (r: u32)
    ensures
        r == id_width(value as nat),
        1 <= r <= 64,
{
    if value == 0 {
        return 1;
    }
    let mut v: u64 = value;
    let mut n: u32 = 0;
    let ghost mut cap: nat = 0x1_0000_0000_0000_0000;
    proof {
        vstd::arithmetic::power2::lemma2_to64();
        vstd::arithmetic::power2::lemma2_to64_rest();
        assert(vstd::arithmetic::power2::pow2(64) == 0x1_0000_0000_0000_0000);
    }
    while v > 0
        invariant
            n <= 64,
            v < vstd::arithmetic::power2::pow2((64 - n) as nat),
            n + bit_width(v as nat) == bit_width(value as nat),
            value > 0,
        decreases v,
    {
        proof {
            vstd::arithmetic::power2::lemma2_to64();
            if n < 64 {
                vstd::arithmetic::power2::lemma_pow2_unfold((64 - n) as nat);
            }
        }
        v = v / 2;
        n = n + 1;
    }
    n
}

/// The cursor behind the slice group map of `groups_minus1 + 1` slice groups.
pub open spec fn slice_groups(b: Seq<u8>, c: Option<nat>, groups_minus1: nat) -> Option<nat> {
    let (kind, c) = next_ue(b, c);
    if kind == 0 {
        skip_ues(b, c, groups_minus1 + 1)
    } else if kind == 2 {
        skip_ues(b, c, 2 * groups_minus1)
    } else if kind == 3 || kind == 4 || kind == 5 {
        next_ue(b, next_bit(b, c).1).1
    } else if kind == 6 {
        let (size_minus1, c) = next_ue(b, c);
        skip_fields(b, c, id_width(groups_minus1), size_minus1 + 1)
    } else {
        c
    }
}

/// The H.264 picture parameter set in the payload `b`; `None` where the data ends in it.
pub open spec fn h264_pps(b: Seq<u8>) -> Option<PpsInfo> {
    let (id, c) = next_ue(b, Some(0));
    let (sps_id, c) = next_ue(b, c);
    let (_entropy, c) = next_bit(b, c);
    let (bottom, c) = next_bit(b, c);
    let (groups, c) = next_ue(b, c);
    let c = if groups > 0 {
        slice_groups(b, c, groups)
    } else {
        c
    };
    let (l0, c) = next_ue(b, c);
    let (l1, c) = next_ue(b, c);
    let (_weighted, c) = next_bit(b, c);
    let (_bipred, c) = next_bits(b, c, 2);
    let (_qp, c) = next_se(b, c);
    let (_qs, c) = next_se(b, c);
    let (_chroma_qp, c) = next_se(b, c);
    let (_deblocking, c) = next_bit(b, c);
    let (_intra, c) = next_bit(b, c);
    let (redundant, c) = next_bit(b, c);
    match c {
        None => None,
        Some(_) => Some(
            PpsInfo {
                pic_parameter_set_id: id as u64,
                seq_parameter_set_id: sps_id as u64,
                num_ref_idx_l0_default_active_minus1: l0 as u64,
                num_ref_idx_l1_default_active_minus1: l1 as u64,
                bottom_field_pic_order_in_frame_present_flag: bottom as u8,
                redundant_pic_cnt_present_flag: redundant as u8,
            },
        ),
    }
}

fn skip_codes(r: &mut BitReader, n: u64) -> (v: Option<()>)
    requires
        old(r).wf(),
    ensures
        final(r).wf(),
        final(r).bytes == old(r).bytes,
        skip_ues(old(r).bytes@, Some(old(r).pos()), n as nat) == if v is Some {
            Some(final(r).pos())
        } else {
            None
        },
{
    let ghost b = r.bytes@;
    let ghost all = skip_ues(b, Some(r.pos()), n as nat);
    let mut i: u64 = 0;
    while i < n
        invariant
            i <= n,
            r.wf(),
            r.bytes == old(r).bytes,
            b == r.bytes@,
            all == skip_ues(b, Some(r.pos()), (n - i) as nat),
            all == skip_ues(old(r).bytes@, Some(old(r).pos()), n as nat),
        decreases n - i,
    {
        proof {
            lemma_skip_none(b, 0, (n - i - 1) as nat);
        }
        let _ = r.read_ue()?;
        i = i + 1;
    }
    Some(())
}

fn skip_wide_fields(r: &mut BitReader, width: usize, n: u64) -> (v: Option<()>)
    requires
        old(r).wf(),
    ensures
        final(r).wf(),
        final(r).bytes == old(r).bytes,
        skip_fields(old(r).bytes@, Some(old(r).pos()), width as nat, n as nat) == if v is Some {
            Some(final(r).pos())
        } else {
            None
        },
{
    let ghost b = r.bytes@;
    let ghost all = skip_fields(b, Some(r.pos()), width as nat, n as nat);
    let mut i: u64 = 0;
    while i < n
        invariant
            i <= n,
            r.wf(),
            r.bytes == old(r).bytes,
            b == r.bytes@,
            all == skip_fields(b, Some(r.pos()), width as nat, (n - i) as nat),
            all == skip_fields(old(r).bytes@, Some(old(r).pos()), width as nat, n as nat),
        decreases n - i,
    {
        proof {
            lemma_skip_none(b, width as nat, (n - i - 1) as nat);
        }
        let _ = r.read_bits(width)?;
        i = i + 1;
    }
    Some(())
}

fn skip_slice_groups(r: &mut BitReader, groups_minus1: u64) -> (v: Option<()>)
    requires
        old(r).wf(),
        groups_minus1 < 0x2_0000_0000,
    ensures
        final(r).wf(),
        final(r).bytes == old(r).bytes,
        slice_groups(old(r).bytes@, Some(old(r).pos()), groups_minus1 as nat) == if v is Some {
            Some(final(r).pos())
        } else {
            None
        },
{
    let ghost b = r.bytes@;
    proof {
        lemma_skip_none(b, id_width(groups_minus1 as nat), groups_minus1 as nat + 1);
        lemma_skip_none(b, id_width(groups_minus1 as nat), 1);
        lemma_skip_none(b, 0, 2 * groups_minus1 as nat);
    }
    let kind: u64 = r.read_ue()?;
    match kind {
        0 => skip_codes(r, groups_minus1 + 1),
        2 => skip_codes(r, 2 * groups_minus1),
        3 | 4 | 5 => {
            let _ = r.read_bit()?;
            let _ = r.read_ue()?;
            Some(())
        },
        6 => {
            let size_minus1: u64 = r.read_ue()?;
            let width = bits_needed_for(groups_minus1);
            skip_wide_fields(r, width as usize, size_minus1 + 1)
        },
        _ => Some(()),
    }
}

proof fn lemma_slice_groups_none(b: Seq<u8>, n: nat)
    ensures
        slice_groups(b, None, n) is None,
{
    lemma_skip_none(b, 0, n + 1);
}

/// Reads a picture parameter set from its payload (without the NAL header and without
/// emulation-prevention bytes).
#[verifier::rlimit(60)]
pub fn parse_h264_pps(rbsp: &[u8]) -> (v: Option<PpsInfo>)
    ensures
        v == h264_pps(rbsp@),
{
    let mut r = BitReader::new(rbsp);
    proof {
        lemma_slice_groups_none(rbsp@, 0);
    }
    let pic_parameter_set_id: u64 = r.read_ue()?;
    let seq_parameter_set_id: u64 = r.read_ue()?;
    let _ = r.read_bit()?;
    let bottom_field_pic_order_in_frame_present_flag: u8 = r.read_bit()?;
    let groups: u64 = r.read_ue()?;
    if groups > 0 {
        skip_slice_groups(&mut r, groups)?;
    }
    let num_ref_idx_l0_default_active_minus1: u64 = r.read_ue()?;
    let num_ref_idx_l1_default_active_minus1: u64 = r.read_ue()?;
    let _ = r.read_bit()?;
    let _ = r.read_bits(2)?;
    let _ = r.read_se()?;
    let _ = r.read_se()?;
    let _ = r.read_se()?;
    let _ = r.read_bit()?;
    let _ = r.read_bit()?;
    let redundant_pic_cnt_present_flag: u8 = r.read_bit()?;
    Some(
        PpsInfo {
            pic_parameter_set_id,
            seq_parameter_set_id,
            num_ref_idx_l0_default_active_minus1,
            num_ref_idx_l1_default_active_minus1,
            bottom_field_pic_order_in_frame_present_flag,
            redundant_pic_cnt_present_flag,
        },
    )
}

proof fn lemma_longer_slice_groups(b: Seq<u8>, x: Seq<u8>, c: Option<nat>, n: nat)
    ensures
        slice_groups(b, c, n) is Some ==> slice_groups(b + x, c, n) == slice_groups(b, c, n),
{
    let w = id_width(n);
    let (kind, d) = next_ue(b, c);
    lemma_longer(b, x, c, 0);
    lemma_longer(b, x, d, 0);
    lemma_longer(b, x, next_bit(b, d).1, 0);
    lemma_longer_skip(b, x, d, w, n + 1);
    lemma_longer_skip(b, x, d, w, 2 * n);
    let (size_minus1, e) = next_ue(b, d);
    lemma_longer_skip(b, x, e, w, size_minus1 + 1);
    lemma_skip_none(b, w, n + 1);
    lemma_skip_none(b, w, 2 * n);
    lemma_skip_none(b, w, size_minus1 + 1);
}

/// Bytes behind a picture parameter set do not change what it says.
pub proof fn law_bytes_behind_do_not_count(b: Seq<u8>, x: Seq<u8>)
    requires
        h264_pps(b) is Some,
    ensures
        h264_pps(b + x) == h264_pps(b),
{
    let c0 = Some(0nat);
    let (id, c1) = next_ue(b, c0);
    let (sps_id, c2) = next_ue(b, c1);
    let (entropy, c3) = next_bit(b, c2);
    let (bottom, c4) = next_bit(b, c3);
    let (groups, c5) = next_ue(b, c4);
    let c6 = if groups > 0 {
        slice_groups(b, c5, groups)
    } else {
        c5
    };
    let (l0, c7) = next_ue(b, c6);
    let (l1, c8) = next_ue(b, c7);
    let (weighted, c9) = next_bit(b, c8);
    let (bipred, c10) = next_bits(b, c9, 2);
    let (qp, c11) = next_se(b, c10);
    let (qs, c12) = next_se(b, c11);
    let (chroma_qp, c13) = next_se(b, c12);
    let (deblocking, c14) = next_bit(b, c13);
    let (intra, c15) = next_bit(b, c14);
    lemma_slice_groups_none(b, groups);
    assert(c15 is Some && c14 is Some && c13 is Some && c12 is Some && c11 is Some && c10 is Some && c9 is Some);
    assert(c8 is Some && c7 is Some && c6 is Some && c5 is Some && c4 is Some && c3 is Some && c2 is Some && c1 is Some);
    lemma_longer(b, x, c0, 0);
    lemma_longer(b, x, c1, 0);
    lemma_longer(b, x, c2, 0);
    lemma_longer(b, x, c3, 0);
    lemma_longer(b, x, c4, 0);
    lemma_longer_slice_groups(b, x, c5, groups);
    lemma_longer(b, x, c6, 0);
    lemma_longer(b, x, c7, 0);
    lemma_longer(b, x, c8, 0);
    lemma_longer(b, x, c9, 2);
    lemma_longer(b, x, c10, 0);
    lemma_longer(b, x, c11, 0);
    lemma_longer(b, x, c12, 0);
    lemma_longer(b, x, c13, 0);
    lemma_longer(b, x, c14, 0);
    lemma_longer(b, x, c15, 0);
}

/// The picture parameter set in the unit `u`, where it is one.
pub open spec fn unit_pps(b: Seq<u8>, u: (int, int)) -> Option<PpsInfo> {
    if u.1 > u.0 && b[u.0] & 0x1f == 8 {
        h264_pps(unescape(b.subrange(u.0 + 1, u.1)))
    } else {
        None
    }
}

/// The picture parameter sets in the units `us` by their ids; of two with one id the
/// later one.
pub open spec fn pps_by_id(b: Seq<u8>, us: Seq<(int, int)>) -> Map<u64, PpsInfo>
    decreases us.len(),
{
    if us.len() == 0 {
        Map::empty()
    } else {
        let m = pps_by_id(b, us.drop_last());
        match unit_pps(b, us.last()) {
            Some(p) => m.insert(p.pic_parameter_set_id, p),
            None => m,
        }
    }
}

/// Every picture parameter set of an Annex-B stream, by its id.
pub fn find_pps_nals(es_bytes: &[u8]) -> (out: HashMap<u64, PpsInfo>)
    ensures
        out@ == pps_by_id(es_bytes@, units(es_bytes@)),
{
    let ghost b = es_bytes@;
    let list = nal_units(es_bytes);
    let mut out: HashMap<u64, PpsInfo> = HashMap::new();
    let mut k: usize = 0;
    while k < list.len()
        invariant
            b == es_bytes@,
            k <= list@.len(),
            as_ints(list@) == units(b),
            forall|j: int| 0 <= j < list@.len() ==> (#[trigger] list@[j]).0 <= b.len() && list@[j].1 <= b.len(),
            out@ == pps_by_id(b, units(b).take(k as int)),
        decreases list@.len() - k,
    {
        let (start, end) = list[k];
        proof {
            assert(as_ints(list@)[k as int] == (start as int, end as int));
            assert(units(b).take(k + 1).drop_last() =~= units(b).take(k as int));
            assert(units(b).take(k + 1).last() == (start as int, end as int));
        }
        if end > start && es_bytes[start] & 0x1f == 8 {
            let rbsp = rbsp_unescape(slice_subrange(es_bytes, start + 1, end));
            if let Some(pps) = parse_h264_pps(&rbsp) {
                out.insert(pps.pic_parameter_set_id, pps);
            }
        }
        k = k + 1;
    }
    proof {
        assert(units(b).take(k as int) =~= units(b));
    }
    out
}

} // verus!
