use iptv_proxy::codec::{classify_ts_chunk, crc32_mpeg2, strip_subtitle_pids, Classification, StreamClassifier, VideoCodec, SYNC, TS_PACKET_LEN};

fn pad_to_188(mut v: Vec<u8>) -> Vec<u8> {
    v.resize(TS_PACKET_LEN, 0xFF);
    v
}

/// Build a PAT packet pointing at a single PMT.
fn build_pat(pmt_pid: u16) -> Vec<u8> {
    // TS header
    let mut p = vec![
        SYNC,
        0x40, 0x00, // PUSI=1, PID=0x0000
        0x10,       // AFC=01, CC=0
    ];
    // Payload: pointer_field + PAT section
    p.push(0x00); // pointer_field
    // section: collect, then prepend table_id + length, then append CRC
    let mut sec = vec![
        0x00, // table_id
        // section_length placeholder (2 bytes)
        0xB0,
        0x00,
        0x00, // transport_stream_id hi
        0x01, // ts_id lo
        0xC1, // version=0, current_next=1
        0x00, // section_number
        0x00, // last_section_number
        // program loop
        0x00, // program_number hi (1)
        0x01,
        0xE0 | ((pmt_pid >> 8) as u8 & 0x1F),
        (pmt_pid & 0xFF) as u8,
    ];
    // CRC placeholder (4 bytes)
    let crc_pos = sec.len();
    sec.extend_from_slice(&[0; 4]);
    // section_length is the byte count after section_length field, including CRC.
    let section_length = sec.len() - 3;
    sec[1] = 0xB0 | (((section_length >> 8) & 0x0F) as u8);
    sec[2] = (section_length & 0xFF) as u8;
    let crc = crc32_mpeg2(&sec[0..crc_pos]);
    sec[crc_pos] = (crc >> 24) as u8;
    sec[crc_pos + 1] = (crc >> 16) as u8;
    sec[crc_pos + 2] = (crc >> 8) as u8;
    sec[crc_pos + 3] = (crc & 0xFF) as u8;
    p.extend(sec);
    pad_to_188(p)
}

/// Build a PMT packet listing the given (stream_type, pid, descriptors) entries.
fn build_pmt(pmt_pid: u16, pcr_pid: u16, entries: &[(u8, u16, Vec<u8>)]) -> Vec<u8> {
    let mut p = vec![
        SYNC,
        0x40 | ((pmt_pid >> 8) as u8 & 0x1F),
        (pmt_pid & 0xFF) as u8,
        0x10,
        0x00, // pointer_field
    ];
    let mut sec = vec![
        0x02, // table_id PMT
        0xB0,
        0x00,
        0x00, // program_number hi
        0x01, // program_number lo
        0xC1,
        0x00,
        0x00,
        0xE0 | ((pcr_pid >> 8) as u8 & 0x1F),
        (pcr_pid & 0xFF) as u8,
        0xF0, // reserved + program_info_length hi
        0x00, // program_info_length lo (no program descriptors)
    ];
    for (stype, pid, desc) in entries {
        sec.push(*stype);
        sec.push(0xE0 | ((pid >> 8) as u8 & 0x1F));
        sec.push((pid & 0xFF) as u8);
        sec.push(0xF0 | (((desc.len() >> 8) & 0x0F) as u8));
        sec.push((desc.len() & 0xFF) as u8);
        sec.extend_from_slice(desc);
    }
    let crc_pos = sec.len();
    sec.extend_from_slice(&[0; 4]);
    let section_length = sec.len() - 3;
    sec[1] = 0xB0 | (((section_length >> 8) & 0x0F) as u8);
    sec[2] = (section_length & 0xFF) as u8;
    let crc = crc32_mpeg2(&sec[0..crc_pos]);
    sec[crc_pos] = (crc >> 24) as u8;
    sec[crc_pos + 1] = (crc >> 16) as u8;
    sec[crc_pos + 2] = (crc >> 8) as u8;
    sec[crc_pos + 3] = (crc & 0xFF) as u8;
    p.extend(sec);
    pad_to_188(p)
}

fn dummy_packet(pid: u16) -> Vec<u8> {
    let p = vec![
        SYNC,
        0x40 | ((pid >> 8) as u8 & 0x1F),
        (pid & 0xFF) as u8,
        0x10,
    ];
    pad_to_188(p.clone())
}

#[test]
fn crc32_mpeg2_known_vector() {
    // Check against the standard test vector "123456789" → 0x0376E6E7.
    assert_eq!(crc32_mpeg2(b"123456789"), 0x0376E6E7);
}

#[test]
fn classify_h264_with_dvb_subs() {
    let pat = build_pat(0x0020);
    let subtitling_desc = vec![0x59, 0x03, b'p', b'o', b'r'];
    let pmt = build_pmt(
        0x0020,
        0x0021,
        &[
            (0x1B, 0x0021, vec![]),                  // h264
            (0x0F, 0x0022, vec![]),                  // ADTS AAC
            (0x06, 0x0023, subtitling_desc),         // private with subtitling
        ],
    );
    let mut bytes = pat;
    bytes.extend(pmt);
    let c = classify_ts_chunk(&bytes).expect("classify");
    assert_eq!(c.video_codec, Some(VideoCodec::H264));
    assert_eq!(c.video_pid, Some(0x0021));
    assert_eq!(c.pmt_pid, Some(0x0020));
    assert_eq!(c.pcr_pid, Some(0x0021));
    assert_eq!(c.subtitle_pids, vec![0x0023]);
    assert_eq!(c.strippable_subtitle_pids(), vec![0x0023]);
    // Strippable case → dvb_unsafe = false. A client without the
    // dvb_safe cap will still play this fine because the proxy will
    // strip the subtitle PID before forwarding.
    assert!(!c.dvb_unsafe);
}

#[test]
fn classify_dvb_unsafe_when_pcr_rides_subtitle_pid() {
    // Pathological broadcast shape: the PCR PID is reused for DVB
    // subtitles, so stripping the subtitle PID would also strip the
    // clock reference (breaking timing). The classifier flags this as
    // dvb_unsafe so that dvb_safe can be asked of clients before the
    // channel is offered.
    let pat = build_pat(0x0020);
    let subtitling_desc = vec![0x59, 0x03, b'p', b'o', b'r'];
    let pmt = build_pmt(
        0x0020,
        0x0023, // PCR rides the same PID as subs below
        &[
            (0x1B, 0x0021, vec![]),
            (0x0F, 0x0022, vec![]),
            (0x06, 0x0023, subtitling_desc),
        ],
    );
    let mut bytes = pat;
    bytes.extend(pmt);
    let c = classify_ts_chunk(&bytes).expect("classify");
    assert_eq!(c.subtitle_pids, vec![0x0023]);
    assert_eq!(c.pcr_pid, Some(0x0023));
    assert!(c.strippable_subtitle_pids().is_empty());
    assert!(c.dvb_unsafe, "PCR-colliding subs are dvb_unsafe");
}

#[test]
fn classify_no_subs_is_not_dvb_unsafe() {
    let pat = build_pat(0x0020);
    let pmt = build_pmt(0x0020, 0x0021, &[(0x1B, 0x0021, vec![]), (0x0F, 0x0022, vec![])]);
    let mut bytes = pat;
    bytes.extend(pmt);
    let c = classify_ts_chunk(&bytes).expect("classify");
    assert!(c.subtitle_pids.is_empty());
    assert!(!c.dvb_unsafe);
}

#[test]
fn classify_hevc() {
    let pat = build_pat(0x0020);
    let pmt = build_pmt(0x0020, 0x0021, &[(0x24, 0x0021, vec![]), (0x0F, 0x0022, vec![])]);
    let mut bytes = pat;
    bytes.extend(pmt);
    let c = classify_ts_chunk(&bytes).expect("classify");
    assert_eq!(c.video_codec, Some(VideoCodec::Hevc));
    assert!(c.subtitle_pids.is_empty());
}

#[test]
fn classify_teletext_is_not_flagged() {
    let pat = build_pat(0x0020);
    let teletext_desc = vec![0x56, 0x05, b'p', b'o', b'r', 0x09, 0x00];
    let pmt = build_pmt(
        0x0020,
        0x0021,
        &[
            (0x1B, 0x0021, vec![]),
            (0x0F, 0x0022, vec![]),
            (0x06, 0x0023, teletext_desc),
        ],
    );
    let mut bytes = pat;
    bytes.extend(pmt);
    let c = classify_ts_chunk(&bytes).expect("classify");
    assert_eq!(c.video_codec, Some(VideoCodec::H264));
    assert!(c.subtitle_pids.is_empty(), "teletext PIDs must not be flagged for stripping");
}

#[test]
fn classify_skips_prefix_then_finds_alignment() {
    // Catch-up segments have an opaque prefix before TS data starts.
    let mut bytes = vec![0xAA; 96];
    bytes.extend(build_pat(0x0020));
    bytes.extend(build_pmt(0x0020, 0x0021, &[(0x1B, 0x0021, vec![]), (0x0F, 0x0022, vec![])]));
    let c = classify_ts_chunk(&bytes).expect("classify");
    assert_eq!(c.video_codec, Some(VideoCodec::H264));
}

#[test]
fn classify_returns_none_for_garbage() {
    let bytes = vec![0xAA; 1024];
    assert!(classify_ts_chunk(&bytes).is_none());
}

#[test]
fn classify_skips_strip_when_pcr_is_a_subtitle_pid() {
    // PCR_PID == subtitle PID. We refuse to strip in this case.
    let pat = build_pat(0x0020);
    let subtitling = vec![0x59, 0x03, b'p', b'o', b'r'];
    let pmt = build_pmt(
        0x0020,
        0x0023, // PCR_PID = the subtitle PID
        &[
            (0x1B, 0x0021, vec![]),
            (0x06, 0x0023, subtitling),
        ],
    );
    let mut bytes = pat;
    bytes.extend(pmt);
    let c = classify_ts_chunk(&bytes).unwrap();
    assert_eq!(c.subtitle_pids, vec![0x0023]);
    assert!(c.strippable_subtitle_pids().is_empty());
}

#[test]
fn strip_drops_subtitle_packets() {
    let pat = build_pat(0x0020);
    let subtitling = vec![0x59, 0x03, b'p', b'o', b'r'];
    let pmt = build_pmt(
        0x0020,
        0x0021,
        &[
            (0x1B, 0x0021, vec![]),
            (0x0F, 0x0022, vec![]),
            (0x06, 0x0023, subtitling),
        ],
    );
    let video = dummy_packet(0x0021);
    let audio = dummy_packet(0x0022);
    let sub = dummy_packet(0x0023);

    let mut bytes = Vec::new();
    bytes.extend(&pat);
    bytes.extend(&pmt);
    bytes.extend(&video);
    bytes.extend(&audio);
    bytes.extend(&sub);
    bytes.extend(&video);
    bytes.extend(&sub);
    bytes.extend(&audio);

    let stripped = strip_subtitle_pids(&bytes, 0x0020, &[0x0023]);
    // 8 packets in, subtitle PID appeared twice → 6 out.
    assert_eq!(stripped.len(), TS_PACKET_LEN * 6);
    // None of the remaining packets carry PID 0x0023.
    for i in (0..stripped.len()).step_by(TS_PACKET_LEN) {
        let pid = (((stripped[i + 1] & 0x1F) as u16) << 8) | (stripped[i + 2] as u16);
        assert_ne!(pid, 0x0023);
    }
}

#[test]
fn strip_rewrites_pmt_with_valid_crc_and_removed_pid() {
    let pat = build_pat(0x0020);
    let subtitling = vec![0x59, 0x03, b'p', b'o', b'r'];
    let pmt = build_pmt(
        0x0020,
        0x0021,
        &[
            (0x1B, 0x0021, vec![]),
            (0x0F, 0x0022, vec![]),
            (0x06, 0x0023, subtitling),
        ],
    );
    let mut bytes = pat;
    bytes.extend(pmt);
    let stripped = strip_subtitle_pids(&bytes, 0x0020, &[0x0023]);
    // Re-classify the result: subtitle PID should be gone, h264/aac kept,
    // and the PMT's CRC has to validate or parse_pmt would have refused. We
    // verify by running through classify_ts_chunk again.
    let c = classify_ts_chunk(&stripped).expect("re-classify");
    assert_eq!(c.video_codec, Some(VideoCodec::H264));
    assert!(c.subtitle_pids.is_empty(), "subtitles must be removed");

    // Verify the PMT section's CRC32 against its bytes.
    let pmt_pkt = &stripped[TS_PACKET_LEN..TS_PACKET_LEN * 2];
    let payload_start = 4; // no AF
    let pointer = pmt_pkt[payload_start] as usize;
    let section_start = payload_start + 1 + pointer;
    let section_length = (((pmt_pkt[section_start + 1] as usize) & 0x0F) << 8)
        | (pmt_pkt[section_start + 2] as usize);
    let section_end = section_start + 3 + section_length;
    let crc_start = section_end - 4;
    let crc_in_packet = u32::from_be_bytes([
        pmt_pkt[crc_start],
        pmt_pkt[crc_start + 1],
        pmt_pkt[crc_start + 2],
        pmt_pkt[crc_start + 3],
    ]);
    let recomputed = crc32_mpeg2(&pmt_pkt[section_start..crc_start]);
    assert_eq!(crc_in_packet, recomputed);
}

#[test]
fn strip_noop_when_no_pids_listed() {
    let bytes = build_pat(0x0020);
    let out = strip_subtitle_pids(&bytes, 0x0020, &[]);
    assert_eq!(out, bytes);
}

#[test]
fn classifier_get_set_clear() {
    let mut c = StreamClassifier::new();
    assert!(c.get(42).is_none());
    c.set(
        42,
        Classification {
            video_codec: Some(VideoCodec::Hevc),
            video_pid: Some(0x0100),
            pmt_pid: Some(0x0020),
            pcr_pid: Some(0x0100),
            subtitle_pids: vec![],
            dvb_unsafe: false,
            width: None,
            height: None,
            framerate: None,
            pix_fmt: None,
            color_transfer: None,
        },
    );
    assert_eq!(c.get(42).unwrap().video_codec, Some(VideoCodec::Hevc));
    assert_eq!(c.snapshot().len(), 1);
    c.clear();
    assert!(c.get(42).is_none());
}

#[test]
fn stripping_twice_changes_nothing() {
    let subtitling = vec![0x59, 0x03, b'p', b'o', b'r'];
    let mut bytes = build_pat(0x0020);
    bytes.extend(build_pmt(0x0020, 0x0021, &[(0x1B, 0x0021, vec![]), (0x06, 0x0023, subtitling)]));
    bytes.extend(dummy_packet(0x0021));
    bytes.extend(dummy_packet(0x0023));
    let once = strip_subtitle_pids(&bytes, 0x0020, &[0x0023]);
    assert_eq!(once.len(), bytes.len() - TS_PACKET_LEN);
    assert_ne!(once[TS_PACKET_LEN..2 * TS_PACKET_LEN], bytes[TS_PACKET_LEN..2 * TS_PACKET_LEN]);
    assert_eq!(strip_subtitle_pids(&once, 0x0020, &[0x0023]), once);
}
