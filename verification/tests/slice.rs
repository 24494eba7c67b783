use std::collections::HashMap;

use iptv_proxy::pps::PpsInfo;
use iptv_proxy::slice::{h264_excess_refs, is_b_slice, walk_slices};
use iptv_proxy::sps::SpsInfo;

fn fake_sps_id_num_refs(id: u64, n: u64) -> SpsInfo {
    SpsInfo {
        width: Some(1920),
        height: Some(1080),
        framerate: None,
        pix_fmt: None,
        color_transfer: None,
        seq_parameter_set_id: Some(id),
        num_ref_frames: Some(n),
        log2_max_frame_num_minus4: Some(0),
        pic_order_cnt_type: Some(2),
        log2_max_pic_order_cnt_lsb_minus4: None,
        delta_pic_order_always_zero_flag: None,
        frame_mbs_only_flag: Some(1),
        separate_colour_plane_flag: Some(0),
    }
}

fn fake_sps_num_refs(n: u64) -> HashMap<u64, SpsInfo> {
    let mut m = HashMap::new();
    m.insert(0, fake_sps_id_num_refs(0, n));
    m
}

fn fake_pps_with_sps(pps_id: u64, sps_id: u64, l0: u64, l1: u64) -> PpsInfo {
    PpsInfo {
        pic_parameter_set_id: pps_id,
        seq_parameter_set_id: sps_id,
        num_ref_idx_l0_default_active_minus1: l0,
        num_ref_idx_l1_default_active_minus1: l1,
        bottom_field_pic_order_in_frame_present_flag: 0,
        redundant_pic_cnt_present_flag: 0,
    }
}

fn fake_pps(l0: u64, l1: u64) -> HashMap<u64, PpsInfo> {
    let mut m = HashMap::new();
    m.insert(0, fake_pps_with_sps(0, 0, l0, l1));
    m
}

// Tiny bit-writer kept local to this test module (mirrors sps.rs).
struct BitWriter {
    bytes: Vec<u8>,
    bit_pos: usize,
}
impl BitWriter {
    fn new() -> Self { Self { bytes: Vec::new(), bit_pos: 0 } }
    fn write_bit(&mut self, b: u8) {
        if self.bit_pos.is_multiple_of(8) { self.bytes.push(0); }
        let byte = self.bit_pos / 8;
        let bit = 7 - (self.bit_pos % 8);
        self.bytes[byte] |= (b & 1) << bit;
        self.bit_pos += 1;
    }
    fn write_bits(&mut self, v: u64, n: usize) {
        for i in (0..n).rev() { self.write_bit(((v >> i) & 1) as u8); }
    }
    fn write_ue(&mut self, v: u64) {
        let mut n_bits = 0;
        let mut tmp = v + 1;
        while tmp > 0 { n_bits += 1; tmp >>= 1; }
        for _ in 0..(n_bits - 1) { self.write_bit(0); }
        self.write_bits(v + 1, n_bits);
    }
    fn finish(mut self) -> Vec<u8> {
        self.write_bit(1);
        while !self.bit_pos.is_multiple_of(8) { self.write_bit(0); }
        self.bytes
    }
}

/// Build an Annex-B stream with one non-IDR slice whose override flag is
/// set, returning l0/l1 active counts to the walker.
fn build_slice_stream(slice_type: u64, override_flag: u8, l0_active: u64, l1_active: u64) -> Vec<u8> {
    let mut w = BitWriter::new();
    w.write_ue(0); // first_mb_in_slice
    w.write_ue(slice_type);
    w.write_ue(0); // pic_parameter_set_id
    w.write_bits(0, 4); // frame_num (log2_max_frame_num_minus4=0 → 4 bits)
    // frame_mbs_only_flag=1 → no field_pic_flag.
    // poc_type=2 → no POC fields.
    // redundant_pic_cnt_present_flag=0.
    // B-slice direct_spatial_mv_pred_flag
    if is_b_slice(slice_type) { w.write_bit(0); }
    w.write_bit(override_flag);
    if override_flag == 1 {
        w.write_ue(l0_active);
        if is_b_slice(slice_type) { w.write_ue(l1_active); }
    }
    let rbsp = w.finish();
    let mut stream = vec![0u8, 0, 0, 1, 0x21]; // slice NAL, nal_ref_idc=1, type=1 (non-IDR)
    stream.extend(rbsp);
    stream
}

#[test]
fn flags_excess_when_override_l0_exceeds_sps() {
    // SPS says 2 ref frames. Slice overrides to 5 (l0_active_minus1=4 → 5 active).
    let stream = build_slice_stream(0 /* P */, 1, 4, 0);
    let sps = fake_sps_num_refs(2);
    let pps_set = fake_pps(0, 0);
    assert_eq!(h264_excess_refs(&stream, &sps, &pps_set), Some(true));
}

#[test]
fn ok_when_override_within_sps_budget() {
    let stream = build_slice_stream(0 /* P */, 1, 0, 0); // 1 active ≤ 2
    let sps = fake_sps_num_refs(2);
    let pps_set = fake_pps(0, 0);
    assert_eq!(h264_excess_refs(&stream, &sps, &pps_set), Some(false));
}

#[test]
fn flags_excess_using_pps_default_when_no_override() {
    let stream = build_slice_stream(0 /* P */, 0, 0, 0);
    let sps = fake_sps_num_refs(2);
    let pps_set = fake_pps(4, 0); // pps default = 5 active
    assert_eq!(h264_excess_refs(&stream, &sps, &pps_set), Some(true));
}

#[test]
fn none_when_no_slice_in_chunk() {
    let stream = vec![0u8, 0, 0, 1, 0x09, 0x10]; // AUD only
    let sps = fake_sps_num_refs(2);
    let pps_set = fake_pps(0, 0);
    assert!(h264_excess_refs(&stream, &sps, &pps_set).is_none());
}

#[test]
fn b_slice_uses_max_of_l0_l1() {
    // l0_active_minus1=0, l1_active_minus1=4 → 5 active.
    let stream = build_slice_stream(1 /* B */, 1, 0, 4);
    let sps = fake_sps_num_refs(2);
    let pps_set = fake_pps(0, 0);
    assert_eq!(h264_excess_refs(&stream, &sps, &pps_set), Some(true));
}

/// VIP-RAW-like broken segment (SPS num_ref=2,
/// slice override active_max+1=5) → Some(true). Synthetic but matches
/// the predicate the real-world IPTV defect triggers.
#[test]
fn fixture_vip_raw_like_segment_flags_excess_refs() {
    let stream = build_slice_stream(0 /* P */, 1, 4, 0);
    let sps = fake_sps_num_refs(2);
    let pps_set = fake_pps(0, 0);
    assert_eq!(h264_excess_refs(&stream, &sps, &pps_set), Some(true));
}

/// VIP-HD-like conformant segment
/// (slice override active_max+1 ≤ SPS num_ref) → Some(false).
#[test]
fn fixture_vip_hd_like_segment_is_clean() {
    let stream = build_slice_stream(0 /* P */, 1, 1, 0);
    let sps = fake_sps_num_refs(2);
    let pps_set = fake_pps(0, 0);
    assert_eq!(h264_excess_refs(&stream, &sps, &pps_set), Some(false));
}

/// R2 round-1: multi-SPS chunk. Two SPS are present (id 0 and id 1)
/// with different `num_ref_frames`; the slice's PPS points at SPS id 1.
/// The walker must resolve to SPS id 1 (not id 0) when checking the
/// budget; otherwise a stream that rebases mid-chunk gets classified
/// against the wrong reference set.
#[test]
fn multi_sps_chunk_resolves_via_pps_seq_parameter_set_id() {
    let mut sps_set: HashMap<u64, SpsInfo> = HashMap::new();
    sps_set.insert(0, fake_sps_id_num_refs(0, 16)); // tolerant SPS
    sps_set.insert(1, fake_sps_id_num_refs(1, 2));  // strict SPS
    let mut pps_set: HashMap<u64, PpsInfo> = HashMap::new();
    // pps id 0 → SPS id 1 (the strict one).
    pps_set.insert(0, fake_pps_with_sps(0, 1, 4, 0));
    let stream = build_slice_stream(0 /* P */, 0, 0, 0);
    // Override off → uses PPS default (5 active) → exceeds strict SPS's 2.
    // If the walker mistakenly used the tolerant SPS (16) the result
    // would be Some(false) and this regression would slip through.
    assert_eq!(h264_excess_refs(&stream, &sps_set, &pps_set), Some(true));
}

/// A chunk arrives with a partial NAL at the
/// start (PES boundary mid-slice). The walker must not panic; it
/// should report whatever it can decode from the suffix.
#[test]
fn boundary_test_partial_leading_nal_does_not_panic() {
    // Build a normal slice, then prepend a "garbage" partial NAL
    // (the kind of leftover the sweep's fetch window could carry
    // when the slice header straddles a PES packet).
    let mut stream: Vec<u8> = vec![0xCA, 0xFE, 0xBA, 0xBE];
    stream.extend(build_slice_stream(0, 1, 1, 0));
    let sps = fake_sps_num_refs(2);
    let pps_set = fake_pps(0, 0);
    let result = h264_excess_refs(&stream, &sps, &pps_set);
    // We don't assert the value — the boundary test just confirms
    // we don't panic when junk precedes the start code.
    let _ = result;
}

#[test]
fn nothing_is_decided_without_parameter_sets() {
    let stream = build_slice_stream(0 /* P */, 1, 4, 0);
    assert_eq!(h264_excess_refs(&stream, &HashMap::new(), &fake_pps(0, 0)), None);
    assert_eq!(h264_excess_refs(&stream, &fake_sps_num_refs(2), &HashMap::new()), None);
}

/// A sequence parameter set for so many reference frames.
fn sps_unit(id: u64, refs: u64) -> Vec<u8> {
    let mut w = BitWriter::new();
    w.write_bits(66, 8); // profile
    w.write_bits(0, 8); // constraints
    w.write_bits(40, 8); // level
    w.write_ue(id);
    w.write_ue(0); // log2_max_frame_num_minus4
    w.write_ue(2); // pic_order_cnt_type
    w.write_ue(refs);
    w.write_bit(0); // gaps
    w.write_ue(79); // 1280 wide
    w.write_ue(44); // 720 high
    w.write_bit(1); // frame_mbs_only_flag
    w.write_bit(1); // direct_8x8_inference_flag
    w.write_bit(0); // cropping
    w.write_bit(0); // VUI
    let mut unit = vec![0, 0, 0, 1, 0x67];
    unit.extend(w.finish());
    unit
}

/// A picture parameter set that goes with a sequence parameter set.
fn pps_unit(id: u64, sps_id: u64) -> Vec<u8> {
    let mut w = BitWriter::new();
    w.write_ue(id);
    w.write_ue(sps_id);
    w.write_bits(0, 2); // entropy coding, bottom field
    w.write_ue(0); // slice groups
    w.write_ue(0); // l0
    w.write_ue(0); // l1
    w.write_bits(0, 3); // weighted prediction
    w.write_ue(0);
    w.write_ue(0);
    w.write_ue(0);
    w.write_bits(0, 3); // deblocking, intra, redundant pictures
    let mut unit = vec![0, 0, 0, 1, 0x68];
    unit.extend(w.finish());
    unit
}

#[test]
fn slices_go_by_the_parameter_sets_before_them() {
    let slice = build_slice_stream(0 /* P */, 1, 4, 0);
    let with = |units: &[Vec<u8>]| walk_slices(&[units.concat(), slice.clone()].concat());
    assert_eq!(with(&[sps_unit(0, 2), pps_unit(0, 0)]), Some(true));
    assert_eq!(with(&[sps_unit(0, 5), pps_unit(0, 0)]), Some(false));
    assert_eq!(with(&[sps_unit(0, 16), sps_unit(1, 2), pps_unit(0, 1)]), Some(true));
    assert_eq!(with(&[sps_unit(0, 2), sps_unit(0, 16), pps_unit(0, 0)]), Some(false), "the later one counts");
    assert_eq!(with(&[sps_unit(0, 2)]), None);
    assert_eq!(with(&[sps_unit(1, 2), pps_unit(0, 0)]), None);
    assert_eq!(walk_slices(&[]), None);
}
