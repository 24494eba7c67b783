//! ADTS headers of raw AAC audio.
use vstd::prelude::*;
use crate::single::{Single, audible_kbps_of, kbps_audible};

verus! {

/// The fields of an ADTS frame header.
#[derive(Debug, Clone, Copy, PartialEq, Eq, Structural)]
pub struct AdtsHeader {
    /// 1 to 4: Main, LC, SSR, LTP.
    pub profile: u8,
    /// Index into the table of sampling frequencies.
    pub sampling_frequency_index: u8,
    /// 1 is mono, 2 stereo, 3 to 7 surround; 0 says nothing.
    pub channel_configuration: u8,
    /// The frame's length in bytes, with the header.
    pub frame_length: u16,
}

/// The sampling frequencies by index.
pub open spec fn sampling_frequencies() -> Seq<u32> {
    seq![
        96000u32, 88200u32, 64000u32, 48000u32, 44100u32, 32000u32, 24000u32, 22050u32, 16000u32, 12000u32, 11025u32,
        8000u32, 7350u32,
    ]
}

/// The channel count of a channel configuration.
pub open spec fn channel_count(configuration: u8) -> Option<u8> {
    if 1 <= configuration <= 6 {
        Some(configuration)
    } else if configuration == 7 {
        Some(8u8)
    } else {
        None
    }
}

impl AdtsHeader {
    pub fn sample_rate_hz(&self) -> (r: Option<u32>)
        ensures
            r == if self.sampling_frequency_index < sampling_frequencies().len() {
                Some(sampling_frequencies()[self.sampling_frequency_index as int])
            } else {
                None
            },
    {
        match self.sampling_frequency_index {
            0 => Some(96000),
            1 => Some(88200),
            2 => Some(64000),
            3 => Some(48000),
            4 => Some(44100),
            5 => Some(32000),
            6 => Some(24000),
            7 => Some(22050),
            8 => Some(16000),
            9 => Some(12000),
            10 => Some(11025),
            11 => Some(8000),
            12 => Some(7350),
            _ => None,
        }
    }

    pub fn channels(&self) -> (r: Option<u8>)
        ensures
            r == channel_count(self.channel_configuration),
    {
        match self.channel_configuration {
            1 => Some(1),
            2 => Some(2),
            3 => Some(3),
            4 => Some(4),
            5 => Some(5),
            6 => Some(6),
            7 => Some(8),
            _ => None,
        }
    }
}

/// The header that starts the bytes `b`: seven bytes, of which the first twelve bits
/// are set.
pub open spec fn adts_header(b: Seq<u8>) -> Option<AdtsHeader> {
    if b.len() < 7 || b[0] != 0xff || b[1] / 16 != 15 {
        None
    } else {
        Some(
            AdtsHeader {
                profile: (b[2] / 64 + 1) as u8,
                sampling_frequency_index: (b[2] / 4) % 16,
                channel_configuration: ((b[2] % 2) * 4 + b[3] / 64) as u8,
                frame_length: ((b[3] % 4) * 2048 + b[4] * 8 + b[5] / 32) as u16,
            },
        )
    }
}

/// Parses the ADTS header at the start of `bytes`.
pub fn parse_adts_header(bytes: &[u8]) -> (r: Option<AdtsHeader>)
    ensures
        r == adts_header(bytes@),
{
    if bytes.len() < 7 {
        return None;
    }
    let (b1, b2, b3, b4, b5): (u8, u8, u8, u8, u8) = (bytes[1], bytes[2], bytes[3], bytes[4], bytes[5]);
    assert((b1 & 0xf0 == 0xf0) == (b1 / 16 == 15)) by (bit_vector);
    if bytes[0] != 0xff || (b1 & 0xf0) != 0xf0 {
        return None;
    }
    assert((b2 >> 6) & 3 == b2 / 64 && (b2 >> 2) & 0x0f == (b2 / 4) % 16 && ((b2 & 1) << 2) | ((b3 >> 6) & 3) == (b2
        % 2) * 4 + b3 / 64) by (bit_vector);
    assert((((b3 & 3) as u16) << 11) | ((b4 as u16) << 3) | ((b5 as u16) >> 5) == (b3 % 4) * 2048 + b4 * 8 + b5 / 32)
        by (bit_vector);
    assert(b2 / 64 <= 3);
    Some(
        AdtsHeader {
            profile: ((b2 >> 6) & 3) + 1,
            sampling_frequency_index: (b2 >> 2) & 0x0f,
            channel_configuration: ((b2 & 1) << 2) | ((b3 >> 6) & 3),
            frame_length: (((b3 & 3) as u16) << 11) | ((b4 as u16) << 3) | ((b5 as u16) >> 5),
        },
    )
}

/// What a chunk of AAC audio tells of its stream.
#[derive(Debug, Clone, Copy, PartialEq, Eq, Structural)]
pub struct AudioClassification {
    pub sample_rate_hz: Option<u32>,
    pub audio_channels: Option<u8>,
    pub kbps: Option<u32>,
}

/// The bit rate of `len` bytes over so many seconds, to the nearest whole number of kilobits
/// per second; `None` below 16 and for no duration.
pub open spec fn audio_kbps(len: nat, seconds: Single) -> Option<u32> {
    if seconds.positive() {
        kbps_audible(len, seconds)
    } else {
        None
    }
}

/// Classifies a chunk of ADTS audio that plays for so many seconds.
pub fn classify_aac_chunk(bytes: &[u8], seconds: Single) -> (r: Option<AudioClassification>)
    ensures
        r is Some <==> adts_header(bytes@) is Some,
        r matches Some(c) ==> {
            let h = adts_header(bytes@)->0;
            &&& c.audio_channels == channel_count(h.channel_configuration)
            &&& c.sample_rate_hz == if h.sampling_frequency_index < sampling_frequencies().len() {
                Some(sampling_frequencies()[h.sampling_frequency_index as int])
            } else {
                None
            }
            &&& c.kbps == audio_kbps(bytes@.len(), seconds)
        },
{
    let header = parse_adts_header(bytes)?;
    let kbps: Option<u32> = if seconds.is_positive() {
        audible_kbps_of(bytes.len() as u64, seconds)
    } else {
        None
    };
    Some(AudioClassification { sample_rate_hz: header.sample_rate_hz(), audio_channels: header.channels(), kbps })
}

/// The first bytes of an ADTS frame with the fields: `flags` are the low four bits behind the twelve
/// that are set, `private` and `rest` what else the bytes hold.
pub open spec fn adts_bytes(h: AdtsHeader, flags: u8, private: bool, rest: u8, tail: u8, last: u8) -> Seq<u8> {
    seq![
        0xffu8,
        (0xf0 + flags) as u8,
        ((h.profile - 1) * 64 + h.sampling_frequency_index * 4 + (if private {
            2int
        } else {
            0
        }) + h.channel_configuration / 4) as u8,
        ((h.channel_configuration % 4) * 64 + rest * 4 + h.frame_length / 2048) as u8,
        ((h.frame_length / 8) % 256) as u8,
        ((h.frame_length % 8) * 32 + tail) as u8,
        last,
    ]
}

/// The header of a frame is read as it was written.
pub proof fn law_headers_are_read_back(
    h: AdtsHeader,
    flags: u8,
    private: bool,
    rest: u8,
    tail: u8,
    last: u8,
    more: Seq<u8>,
)
    requires
        1 <= h.profile <= 4,
        h.sampling_frequency_index < 16,
        h.channel_configuration < 8,
        h.frame_length < 8192,
        flags < 16,
        rest < 16,
        tail < 32,
    ensures
        adts_header(adts_bytes(h, flags, private, rest, tail, last) + more) == Some(h),
{
    let b = adts_bytes(h, flags, private, rest, tail, last) + more;
    let (p, s, c, n) = ((h.profile - 1) as u8, h.sampling_frequency_index, h.channel_configuration, h.frame_length);
    let v = if private {
        2u8
    } else {
        0u8
    };
    assert(((0xf0 + flags) as u8) / 16 == 15) by (bit_vector)
        requires
            flags < 16,
    ;
    assert(({
        let x = (p * 64 + s * 4 + v + c / 4) as u8;
        let y = ((c % 4) * 64 + rest * 4 + n / 2048) as u8;
        x / 64 == p && (x / 4) % 16 == s && (x % 2) * 4 + y / 64 == c && y % 4 == n / 2048
    })) by (bit_vector)
        requires
            p < 4,
            s < 16,
            v == 0 || v == 2,
            c < 8,
            rest < 16,
            n < 8192,
    ;
    assert(({
        let z = ((n % 8) * 32 + tail) as u8;
        let y = ((n / 8) % 256) as u8;
        z / 32 == n % 8 && (n / 2048) * 2048 + y * 8 + z / 32 == n
    })) by (bit_vector)
        requires
            n < 8192,
            tail < 32,
    ;
}

/// What does not start with twelve bits that are set, or is shorter than a header, is no frame.
pub proof fn law_frames_start_with_their_mark(b: Seq<u8>)
    ensures
        b.len() < 7 ==> adts_header(b) is None,
        b.len() > 0 && b[0] != 0xff ==> adts_header(b) is None,
        b.len() > 1 && b[1] < 0xf0 ==> adts_header(b) is None,
        b.len() >= 7 && b[0] == 0xff && b[1] >= 0xf0 ==> adts_header(b) is Some,
{
}

} // verus!
