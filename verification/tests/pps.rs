use iptv_proxy::pps::{find_pps_nals, parse_h264_pps};

// Tiny bit-writer copied from `sps.rs::tests::BitWriter`. Local copy avoids
// a crate-internal `pub(crate)` leak just for tests.
struct BitWriter {
    bytes: Vec<u8>,
    bit_pos: usize,
}

impl BitWriter {
    fn new() -> Self {
        Self { bytes: Vec::new(), bit_pos: 0 }
    }
    fn write_bit(&mut self, b: u8) {
        if self.bit_pos.is_multiple_of(8) {
            self.bytes.push(0);
        }
        let byte = self.bit_pos / 8;
        let bit = 7 - (self.bit_pos % 8);
        self.bytes[byte] |= (b & 1) << bit;
        self.bit_pos += 1;
    }
    fn write_bits(&mut self, v: u64, n: usize) {
        for i in (0..n).rev() {
            self.write_bit(((v >> i) & 1) as u8);
        }
    }
    fn write_ue(&mut self, v: u64) {
        let mut n_bits = 0;
        let mut tmp = v + 1;
        while tmp > 0 {
            n_bits += 1;
            tmp >>= 1;
        }
        for _ in 0..(n_bits - 1) {
            self.write_bit(0);
        }
        self.write_bits(v + 1, n_bits);
    }
    fn write_se(&mut self, v: i64) {
        let k = if v <= 0 { (-2 * v) as u64 } else { (2 * v - 1) as u64 };
        self.write_ue(k);
    }
    fn finish(mut self) -> Vec<u8> {
        self.write_bit(1);
        while !self.bit_pos.is_multiple_of(8) {
            self.write_bit(0);
        }
        self.bytes
    }
}

fn build_pps(pps_id: u64, sps_id: u64, l0: u64, l1: u64) -> Vec<u8> {
    let mut w = BitWriter::new();
    w.write_ue(pps_id);
    w.write_ue(sps_id);
    w.write_bit(0); // entropy_coding_mode_flag
    w.write_bit(1); // bottom_field_pic_order_in_frame_present_flag
    w.write_ue(0); // num_slice_groups_minus1 = 0
    w.write_ue(l0); // num_ref_idx_l0_default_active_minus1
    w.write_ue(l1); // num_ref_idx_l1_default_active_minus1
    w.write_bit(0); // weighted_pred_flag
    w.write_bits(0, 2); // weighted_bipred_idc
    w.write_se(0); // pic_init_qp_minus26
    w.write_se(0); // pic_init_qs_minus26
    w.write_se(0); // chroma_qp_index_offset
    w.write_bit(1); // deblocking_filter_control_present_flag
    w.write_bit(0); // constrained_intra_pred_flag
    w.write_bit(0); // redundant_pic_cnt_present_flag
    w.finish()
}

#[test]
fn parse_pps_extracts_default_active_minus1() {
    let rbsp = build_pps(0, 0, 1, 0);
    let pps = parse_h264_pps(&rbsp).unwrap();
    assert_eq!(pps.pic_parameter_set_id, 0);
    assert_eq!(pps.seq_parameter_set_id, 0);
    assert_eq!(pps.num_ref_idx_l0_default_active_minus1, 1);
    assert_eq!(pps.num_ref_idx_l1_default_active_minus1, 0);
    assert_eq!(pps.bottom_field_pic_order_in_frame_present_flag, 1);
    assert_eq!(pps.redundant_pic_cnt_present_flag, 0);
}

#[test]
fn find_pps_nals_extracts_pps_from_annex_b_stream() {
    let rbsp = build_pps(0, 0, 3, 2);
    let mut stream = vec![0u8, 0, 0, 1, 0x68];
    // Reuse the same escape-on-double-zero trick the sps fixture uses.
    for &b in &rbsp {
        if b == 0 && stream.last() == Some(&0) && stream.iter().rev().nth(1) == Some(&0) {
            stream.push(0x03);
        }
        stream.push(b);
    }
    let map = find_pps_nals(&stream);
    let pps = map.get(&0).unwrap();
    assert_eq!(pps.num_ref_idx_l0_default_active_minus1, 3);
    assert_eq!(pps.num_ref_idx_l1_default_active_minus1, 2);
}

#[test]
fn bytes_behind_a_pps_do_not_count() {
    let rbsp = build_pps(0, 0, 3, 2);
    let mut longer = rbsp.clone();
    longer.extend([0xFF, 0x00, 0x5A]);
    assert_eq!(parse_h264_pps(&longer), parse_h264_pps(&rbsp));
    assert!(parse_h264_pps(&rbsp[..1]).is_none());
}
