use iptv_proxy::adts::{classify_aac_chunk, parse_adts_header};
use iptv_proxy::single::Single;

fn single(x: f32) -> Single {
    Single { bits: x.to_bits() }
}

/// Synthesise a 7-byte ADTS header so tests don't need a committed
/// binary fixture. Caller supplies the meta fields; `frame_length`
/// fills the 13-bit header field including the 7-byte header itself.
fn synth_adts_header(
    profile_1based: u8,
    sf_idx: u8,
    channel_cfg: u8,
    frame_length: u16,
) -> [u8; 7] {
    let profile_field = (profile_1based - 1) & 0x03;
    let mut h = [0u8; 7];
    h[0] = 0xFF;
    // protection_absent = 1 (no CRC); layer = 00; MPEG-4 (version bit = 0).
    h[1] = 0xF0 | 0b0000_0001;
    h[2] = (profile_field << 6) | ((sf_idx & 0x0F) << 2) | ((channel_cfg >> 2) & 0x01);
    h[3] = ((channel_cfg & 0x03) << 6) | (((frame_length >> 11) & 0x03) as u8);
    h[4] = ((frame_length >> 3) & 0xFF) as u8;
    h[5] = (((frame_length & 0x07) << 5) as u8) | 0x1F; // top of buffer_fullness
    h[6] = 0xFC; // rest of buffer_fullness + num_raw_blocks = 0
    h
}

#[test]
fn parses_lc_mono_44k1() {
    // AAC LC (profile 2), 44.1 kHz (sf_idx 4), mono (ch 1), frame_length = 380 bytes.
    let h = synth_adts_header(2, 4, 1, 380);
    let parsed = parse_adts_header(&h).expect("parses");
    assert_eq!(parsed.profile, 2);
    assert_eq!(parsed.sampling_frequency_index, 4);
    assert_eq!(parsed.channel_configuration, 1);
    assert_eq!(parsed.frame_length, 380);
    assert_eq!(parsed.sample_rate_hz(), Some(44100));
    assert_eq!(parsed.channels(), Some(1));
}

#[test]
fn parses_lc_stereo_48k() {
    let h = synth_adts_header(2, 3, 2, 760);
    let parsed = parse_adts_header(&h).expect("parses");
    assert_eq!(parsed.sample_rate_hz(), Some(48000));
    assert_eq!(parsed.channels(), Some(2));
    assert_eq!(parsed.frame_length, 760);
}

#[test]
fn rejects_bad_syncword() {
    let mut h = synth_adts_header(2, 4, 2, 380);
    h[0] = 0x00; // break the syncword
    assert!(parse_adts_header(&h).is_none());
}

#[test]
fn rejects_short_input() {
    assert!(parse_adts_header(&[0xFF, 0xF1, 0x40]).is_none());
}

#[test]
fn classify_chunk_computes_kbps_from_byte_count_and_duration() {
    // 48 kHz stereo header + ~12 KB payload, 1 s segment → ~96 kbps.
    let mut chunk = synth_adts_header(2, 3, 2, 12000).to_vec();
    chunk.resize(12_000, 0); // pad to 12 KB
    let c = classify_aac_chunk(&chunk, single(1.0)).expect("classifies");
    assert_eq!(c.sample_rate_hz, Some(48000));
    assert_eq!(c.audio_channels, Some(2));
    // 12000 bytes * 8 / 1000 ms = 96 kbps.
    assert_eq!(c.kbps, Some(96));
}

#[test]
fn classify_returns_none_kbps_when_below_floor() {
    // 7-byte header alone in 1 s → 56 bps → well below the 16 kbps floor.
    let chunk = synth_adts_header(2, 4, 1, 7).to_vec();
    let c = classify_aac_chunk(&chunk, single(1.0)).expect("classifies");
    assert_eq!(c.kbps, None);
    // Static fields still populated.
    assert_eq!(c.sample_rate_hz, Some(44100));
}

#[test]
fn classify_returns_none_kbps_when_duration_zero() {
    let chunk = synth_adts_header(2, 4, 1, 7).to_vec();
    let c = classify_aac_chunk(&chunk, single(0.0)).expect("classifies");
    assert_eq!(c.kbps, None);
}

#[test]
fn classify_returns_none_when_not_adts() {
    let bytes = b"not adts at all".to_vec();
    assert!(classify_aac_chunk(&bytes, single(1.0)).is_none());
}
