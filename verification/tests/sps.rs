use iptv_proxy::sps::{find_sps_nal, nal_units, parse_h264_sps, rbsp_unescape, SpsCodec};

// Hand-encoded H.264 SPS for 1920x1080, baseline-ish parameters, no VUI.
// Captured from `ffmpeg -i - -c:v libx264 -profile:v baseline ...` and
// verified by ffprobe to report width=1920, height=1080.
//
// Decomposed:
//   67       NAL header (forbidden=0, ref_idc=3, type=7 SPS)
//   42 c0 1f profile_idc=66, constraints=00, level_idc=31
//   ...
// Easier path: round-trip through our own encoder.
fn build_h264_baseline_1080() -> Vec<u8> {
    // Bit-by-bit encoder mirroring our reader.
    let mut w = BitWriter::new();
    w.write_bits(66, 8); // profile_idc = baseline
    w.write_bits(0, 8); // constraint flags
    w.write_bits(40, 8); // level_idc = 4.0
    w.write_ue(0); // sps_id
    // profile_idc=66 → not in EXTENDED → skip chroma/bit_depth block.
    w.write_ue(4); // log2_max_frame_num_minus4
    w.write_ue(0); // pic_order_cnt_type = 0
    w.write_ue(6); // log2_max_pic_order_cnt_lsb_minus4
    w.write_ue(1); // max_num_ref_frames
    w.write_bit(0); // gaps_allowed
    w.write_ue(119); // pic_width_in_mbs_minus1 = 119 → 120*16 = 1920
    w.write_ue(67); // pic_height_in_map_units_minus1 = 67 → 68*16 = 1088
    w.write_bit(1); // frame_mbs_only_flag
    w.write_bit(0); // direct_8x8_inference
    w.write_bit(1); // frame_cropping_flag
    w.write_ue(0); // crop_left
    w.write_ue(0); // crop_right
    w.write_ue(0); // crop_top
    w.write_ue(4); // crop_bottom = 4 → trims 4*2=8 rows → 1088-8=1080
    w.write_bit(0); // vui_parameters_present_flag
    w.finish()
}

fn build_h264_high_10bit_hdr_1080() -> Vec<u8> {
    let mut w = BitWriter::new();
    w.write_bits(110, 8); // profile_idc = High 10 (in EXTENDED list)
    w.write_bits(0, 8);
    w.write_bits(50, 8); // level 5.0
    w.write_ue(0);
    w.write_ue(1); // chroma_format_idc = 1 (4:2:0)
    w.write_ue(2); // bit_depth_luma_minus8 = 2 → 10-bit
    w.write_ue(2); // bit_depth_chroma_minus8 = 2
    w.write_bit(0); // qpprime
    w.write_bit(0); // seq_scaling_matrix_present
    w.write_ue(4);
    w.write_ue(0);
    w.write_ue(6);
    w.write_ue(1);
    w.write_bit(0);
    w.write_ue(119); // 1920
    w.write_ue(67); // 1088 → 1080 after crop
    w.write_bit(1);
    w.write_bit(0);
    w.write_bit(1); // frame_cropping
    w.write_ue(0);
    w.write_ue(0);
    w.write_ue(0);
    w.write_ue(4);
    w.write_bit(1); // vui_present
    w.write_bit(0); // aspect_ratio_info_present
    w.write_bit(0); // overscan_info_present
    w.write_bit(1); // video_signal_type_present
    w.write_bits(5, 3); // video_format = unspecified
    w.write_bit(0); // full_range
    w.write_bit(1); // colour_description_present
    w.write_bits(9, 8); // colour_primaries = BT.2020
    w.write_bits(16, 8); // transfer_characteristics = SMPTE 2084 (HDR10)
    w.write_bits(9, 8); // matrix_coeffs = BT.2020 non-constant
    w.write_bit(0); // chroma_loc_info_present
    w.write_bit(1); // timing_info_present
    w.write_bits(1, 32); // num_units_in_tick = 1
    w.write_bits(50, 32); // time_scale = 50 → fps = 50 / (2*1) = 25 (rounded)
    w.write_bit(0); // fixed_frame_rate
    w.finish()
}

#[test]
fn h264_baseline_1080_parses_to_1920x1080() {
    let rbsp = build_h264_baseline_1080();
    let s = parse_h264_sps(&rbsp).unwrap();
    assert_eq!(s.width, Some(1920));
    assert_eq!(s.height, Some(1080));
    assert_eq!(s.pix_fmt.as_deref(), Some("yuv420p"));
    assert!(s.color_transfer.is_none());
    assert!(s.framerate.is_none());
}

#[test]
fn h264_high10_hdr_parses_with_full_metadata() {
    let rbsp = build_h264_high_10bit_hdr_1080();
    let s = parse_h264_sps(&rbsp).unwrap();
    assert_eq!(s.width, Some(1920));
    assert_eq!(s.height, Some(1080));
    assert_eq!(s.pix_fmt.as_deref(), Some("yuv420p10le"));
    assert_eq!(s.color_transfer.as_deref(), Some("smpte2084"));
    assert_eq!(f32::from_bits(s.framerate.unwrap().bits), 25.0);
}

#[test]
fn rbsp_unescape_strips_emulation_prevention_byte() {
    let escaped = [0x00, 0x00, 0x03, 0x01, 0xFF, 0x00, 0x00, 0x03, 0xAB];
    let decoded = rbsp_unescape(&escaped);
    assert_eq!(decoded, [0x00, 0x00, 0x01, 0xFF, 0x00, 0x00, 0xAB]);
}

#[test]
fn find_sps_nal_h264_locates_and_unescapes() {
    let rbsp = build_h264_baseline_1080();
    // Build an Annex-B stream: 00 00 00 01 + nal_header (0x67) + escaped rbsp.
    let mut stream = vec![0u8, 0, 0, 1, 0x67];
    stream.extend(escape_rbsp(&rbsp));
    // Trailing NAL to exercise end-of-buffer behaviour.
    stream.extend(&[0, 0, 1, 0x41, 0xAB, 0xCD]);
    let found = find_sps_nal(&stream, SpsCodec::H264).unwrap();
    assert_eq!(found, rbsp);
}

#[test]
fn nal_units_handles_both_start_code_lengths() {
    let s = [
        0, 0, 0, 1, 0x67, 0xAA, 0xBB, // 4-byte start code
        0, 0, 1, 0x68, 0xCC, // 3-byte start code
    ];
    let units = nal_units(&s);
    assert_eq!(units.len(), 2);
    assert_eq!(&s[units[0].0..units[0].1], &[0x67, 0xAA, 0xBB]);
    assert_eq!(&s[units[1].0..units[1].1], &[0x68, 0xCC]);
}

// Tiny inverse of rbsp_unescape for test fixtures.
fn escape_rbsp(raw: &[u8]) -> Vec<u8> {
    let mut out = Vec::with_capacity(raw.len() + raw.len() / 16);
    let mut i = 0;
    while i < raw.len() {
        if i + 1 < raw.len() && raw[i] == 0 && raw[i + 1] == 0 {
            out.push(0);
            out.push(0);
            out.push(0x03);
            i += 2;
        } else {
            out.push(raw[i]);
            i += 1;
        }
    }
    out
}

// Bit-level writer used only by tests.
struct BitWriter {
    bytes: Vec<u8>,
    bit_pos: usize,
}

impl BitWriter {
    fn new() -> Self {
        Self { bytes: Vec::new(), bit_pos: 0 }
    }
    fn write_bit(&mut self, b: u8) {
        if self.bit_pos % 8 == 0 {
            self.bytes.push(0);
        }
        let byte = self.bit_pos / 8;
        let bit = 7 - (self.bit_pos % 8);
        self.bytes[byte] |= (b & 1) << bit;
        self.bit_pos += 1;
    }
    fn write_bits(&mut self, mut v: u64, n: usize) {
        for i in (0..n).rev() {
            self.write_bit(((v >> i) & 1) as u8);
        }
        let _ = &mut v;
    }
    fn write_ue(&mut self, v: u64) {
        // zeros = floor(log2(v+1)); code = zeros zero bits, then 1, then (v+1) lower zeros bits
        let mut n_bits = 0;
        let mut tmp = v + 1;
        while tmp > 0 {
            n_bits += 1;
            tmp >>= 1;
        }
        for _ in 0..(n_bits - 1) {
            self.write_bit(0);
        }
        self.write_bits(v + 1, n_bits);
    }
    fn finish(mut self) -> Vec<u8> {
        // Pad with a trailing 1 bit + zero bits to byte-align (RBSP trailing).
        self.write_bit(1);
        while self.bit_pos % 8 != 0 {
            self.write_bit(0);
        }
        self.bytes
    }
}

#[test]
fn nal_units_end_where_the_next_start_code_begins() {
    assert_eq!(nal_units(&[0, 0, 1]), vec![(3, 3)]);
    assert_eq!(nal_units(&[0, 0, 0, 1]), vec![(4, 4)]);
    assert_eq!(nal_units(&[0, 0, 1, 0x67, 0xAA, 0, 0, 0, 1]), vec![(3, 5), (9, 9)]);
    assert_eq!(nal_units(&[0, 0, 1, 0, 0, 1, 7]), vec![(3, 3), (6, 7)]);
    assert!(nal_units(&[0, 0, 2, 1]).is_empty());
}

#[test]
fn escaping_guards_only_small_bytes() {
    let plain = [0u8, 0, 4, 0, 0, 3, 0, 0, 0, 0];
    let escaped = [0u8, 0, 4, 0, 0, 3, 3, 0, 0, 3, 0, 0];
    assert_eq!(rbsp_unescape(&escaped), plain);
    assert!(nal_units(&escaped).is_empty());
}
