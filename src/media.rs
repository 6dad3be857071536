//! Tracks, packets, timestamps and time bases.
use crate::span::{share, Span};
use gcd::Gcd;
use std::sync::Arc;
use vstd::prelude::*;

verus! {

/// A ratio of two integers; a time base is `numerator / denominator` seconds.
#[derive(Clone, Copy, Debug, PartialEq, Eq, Structural)]
pub struct Fraction {
    pub numerator: u32,
    pub denominator: u32,
}

/// The greatest common divisor, with `gcd(a, 0) == a`.
pub open spec fn spec_gcd(a: nat, b: nat) -> nat
    decreases b,
{
    if b == 0 {
        a
    } else {
        spec_gcd(b, a % b)
    }
}

pub proof fn lemma_gcd_pos(a: nat, b: nat)
    requires
        a > 0 || b > 0,
    ensures
        spec_gcd(a, b) > 0,
    decreases b,
{
    if b > 0 {
        lemma_gcd_pos(b, a % b);
    }
}

/// Relies on `gcd::Gcd::gcd` for `u32`: the greatest common divisor, and `gcd(a, 0) == a`.
#[verifier::external_body]
fn gcd_u32(a: u32, b: u32) -> (r: u32)
    ensures
        r == spec_gcd(a as nat, b as nat),
{
    a.gcd(b)
}

impl Fraction {
    pub fn new(numerator: u32, denominator: u32) -> (f: Fraction)
        ensures
            f.numerator == numerator,
            f.denominator == denominator,
    {
        Fraction { numerator, denominator }
    }

    /// Both terms divided by their greatest common divisor.
    pub fn simplify(&self) -> (f: Fraction)
        requires
            self.numerator > 0 || self.denominator > 0,
        ensures
            f.numerator == self.numerator as nat / spec_gcd(
                self.numerator as nat,
                self.denominator as nat,
            ),
            f.denominator == self.denominator as nat / spec_gcd(
                self.numerator as nat,
                self.denominator as nat,
            ),
    {
        let divisor = gcd_u32(self.numerator, self.denominator);
        proof {
            lemma_gcd_pos(self.numerator as nat, self.denominator as nat);
        }
        Fraction::new(self.numerator / divisor, self.denominator / divisor)
    }
}

/// A timestamp in one time base expressed in another: multiplied by the new
/// denominator, divided by the old one, truncated.
pub open spec fn spec_convert_timebase(time: nat, base: Fraction, new: Fraction) -> nat {
    time * new.denominator as nat / base.denominator as nat
}

/// Whether a timestamp converts without leaving `u64`.
pub open spec fn converts(time: u64, base: Fraction, new: Fraction) -> bool {
    base.denominator > 0 && spec_convert_timebase(time as nat, base, new) <= u64::MAX
}

/// Converts a timestamp from one time base to another.
pub fn convert_timebase(time: u64, base: Fraction, new: Fraction) -> (r: u64)
    requires
        converts(time, base, new),
    ensures
        r == spec_convert_timebase(time as nat, base, new),
{
    let a: u128 = time as u128;
    let b: u128 = new.denominator as u128;
    assert(a * b <= u64::MAX as nat * u32::MAX as nat) by (nonlinear_arith)
        requires
            a <= u64::MAX,
            b <= u32::MAX,
    ;
    let wide: u128 = a * b;
    (wide / base.denominator as u128) as u64
}

/// The kind of codec of a track.
#[derive(Clone, Copy, Debug, PartialEq, Eq, Structural)]
pub enum CodecId {
    Unknown,
    H264,
    Aac,
    WebVtt,
    Ass,
}

impl CodecId {
    pub open spec fn spec_is_video(self) -> bool {
        self == CodecId::H264
    }

    pub open spec fn spec_is_audio(self) -> bool {
        self == CodecId::Aac
    }

    pub open spec fn spec_is_subtitle(self) -> bool {
        self == CodecId::WebVtt || self == CodecId::Ass
    }

    pub fn is_video(&self) -> (b: bool)
        ensures
            b == self.spec_is_video(),
    {
        match self {
            CodecId::H264 => true,
            _ => false,
        }
    }

    pub fn is_audio(&self) -> (b: bool)
        ensures
            b == self.spec_is_audio(),
    {
        match self {
            CodecId::Aac => true,
            _ => false,
        }
    }

    pub fn is_subtitle(&self) -> (b: bool)
        ensures
            b == self.spec_is_subtitle(),
    {
        match self {
            CodecId::WebVtt | CodecId::Ass => true,
            _ => false,
        }
    }
}

/// The channel layout of audio.
#[derive(Clone, Copy, Debug, PartialEq, Eq, Structural)]
pub enum SoundType {
    Mono,
    Stereo,
    Unknown,
}

impl SoundType {
    /// The number of channels; zero where the layout is unknown.
    pub fn channel_count(&self) -> (n: u16)
        ensures
            n == (match self {
                SoundType::Mono => 1u16,
                SoundType::Stereo => 2u16,
                SoundType::Unknown => 0u16,
            }),
    {
        match self {
            SoundType::Mono => 1,
            SoundType::Stereo => 2,
            SoundType::Unknown => 0,
        }
    }
}

/// AAC decoder configuration.
#[derive(Clone, Debug)]
pub struct AacCodec {
    pub extra: Vec<u8>,
}

/// Parameters of specific audio codecs.
#[derive(Clone, Debug)]
pub enum AudioCodec {
    Aac(AacCodec),
}

impl AudioCodec {
    /// The codec's decoder-specific configuration bytes.
    pub fn decoder_specific_data(&self) -> (r: Option<&[u8]>)
        ensures
            r matches Some(b) && (match self {
                AudioCodec::Aac(a) => b@ == a.extra@,
            }),
    {
        match self {
            AudioCodec::Aac(a) => Some(a.extra.as_slice()),
        }
    }
}

/// Parameters of a piece of audio.
#[derive(Clone, Debug)]
pub struct AudioInfo {
    pub sample_rate: u32,
    pub sample_bpp: u32,
    pub sound_type: SoundType,
    pub codec: AudioCodec,
}

/// What a track carries: its codec, the codec's private data, and the video or
/// audio parameters.
#[derive(Clone, Debug)]
pub struct MediaInfo {
    pub codec_id: CodecId,
    pub codec_private: Vec<u8>,
    pub width: u32,
    pub height: u32,
    pub sample_freq: u32,
    pub channels: u32,
    pub sound_type: SoundType,
}

impl MediaInfo {
    /// An unknown codec with no parameters.
    pub fn empty() -> (m: MediaInfo)
        ensures
            m.codec_id == CodecId::Unknown,
            m.codec_private@.len() == 0,
            m.width == 0 && m.height == 0 && m.sample_freq == 0 && m.channels == 0,
            m.sound_type == SoundType::Unknown,
    {
        MediaInfo {
            codec_id: CodecId::Unknown,
            codec_private: Vec::new(),
            width: 0,
            height: 0,
            sample_freq: 0,
            channels: 0,
            sound_type: SoundType::Unknown,
        }
    }
}

/// A track of a movie.
#[derive(Clone, Debug)]
pub struct Track {
    pub id: u32,
    pub info: Arc<MediaInfo>,
    pub timebase: Fraction,
}

impl Track {
    pub fn is_video(&self) -> (b: bool)
        ensures
            b == self.info.codec_id.spec_is_video(),
    {
        self.info.codec_id.is_video()
    }

    /// Another handle on the same track.
    pub fn copy(&self) -> (t: Track)
        ensures
            t == *self,
    {
        Track { id: self.id, info: share(&self.info), timebase: self.timebase }
    }
}

/// A timestamp: presentation, optional decode time and duration, in a time base.
#[derive(Clone, Copy, Debug, PartialEq, Eq, Structural)]
pub struct MediaTime {
    pub pts: u64,
    pub dts: Option<u64>,
    pub duration: Option<u64>,
    pub timebase: Fraction,
}

/// A signed span of time in a time base.
#[derive(Clone, Copy, Debug, PartialEq, Eq, Structural)]
pub struct MediaDuration {
    pub duration: i64,
    pub timebase: Fraction,
}

/// A signed duration in one time base expressed in another, truncated toward zero.
pub open spec fn spec_convert_signed(d: int, base: Fraction, new: Fraction) -> int {
    if d >= 0 {
        spec_convert_timebase(d as nat, base, new) as int
    } else {
        -(spec_convert_timebase((-d) as nat, base, new) as int)
    }
}

impl MediaDuration {
    /// A duration given in nanoseconds, in the time base `timebase`.
    pub fn from_duration(nanos: u64, timebase: Fraction) -> (d: MediaDuration)
        requires
            spec_convert_timebase(nanos as nat, Fraction { numerator: 1, denominator: 1_000_000_000 }, timebase)
                <= i64::MAX,
        ensures
            d.duration == spec_convert_timebase(
                nanos as nat,
                Fraction { numerator: 1, denominator: 1_000_000_000 },
                timebase,
            ),
            d.timebase == timebase,
    {
        let v = convert_timebase(nanos, Fraction::new(1, 1_000_000_000), timebase);
        MediaDuration { duration: v as i64, timebase }
    }

    /// The same duration in another time base.
    pub fn in_base(&self, timebase: Fraction) -> (d: MediaDuration)
        requires
            self.timebase.denominator > 0,
            -i64::MAX <= spec_convert_signed(self.duration as int, self.timebase, timebase) <= i64::MAX,
        ensures
            d.duration == spec_convert_signed(self.duration as int, self.timebase, timebase),
            d.timebase == timebase,
    {
        if self.duration >= 0 {
            let v = convert_timebase(self.duration as u64, self.timebase, timebase);
            MediaDuration { duration: v as i64, timebase }
        } else {
            let m: u64 = if self.duration == i64::MIN {
                0x8000_0000_0000_0000
            } else {
                (-self.duration) as u64
            };
            proof {
                assert(spec_convert_timebase(m as nat, self.timebase, timebase) <= i64::MAX);
            }
            let v = convert_timebase(m, self.timebase, timebase);
            MediaDuration { duration: -(v as i64), timebase }
        }
    }
}

impl MediaTime {
    /// The time from `rhs` to `self`, in `self`'s time base.
    pub fn since(&self, rhs: &MediaTime) -> (d: MediaDuration)
        requires
            i64::MIN <= self.pts - rhs.pts <= i64::MAX,
        ensures
            d.duration == self.pts - rhs.pts,
            d.timebase == self.timebase,
    {
        let d: i128 = self.pts as i128 - rhs.pts as i128;
        MediaDuration { duration: d as i64, timebase: self.timebase }
    }

    /// The same time in another time base.
    pub fn in_base(&self, new_timebase: Fraction) -> (t: MediaTime)
        requires
            converts(self.pts, self.timebase, new_timebase),
            self.dts matches Some(d) ==> converts(d, self.timebase, new_timebase),
            self.duration matches Some(d) ==> converts(d, self.timebase, new_timebase),
        ensures
            t.pts == spec_convert_timebase(self.pts as nat, self.timebase, new_timebase),
            t.dts == (match self.dts {
                Some(d) => Some(spec_convert_timebase(d as nat, self.timebase, new_timebase) as u64),
                None => None,
            }),
            t.duration == (match self.duration {
                Some(d) => Some(spec_convert_timebase(d as nat, self.timebase, new_timebase) as u64),
                None => None,
            }),
            t.timebase == new_timebase,
    {
        let pts = convert_timebase(self.pts, self.timebase, new_timebase);
        let dts = match self.dts {
            Some(d) => Some(convert_timebase(d, self.timebase, new_timebase)),
            None => None,
        };
        let duration = match self.duration {
            Some(d) => Some(convert_timebase(d, self.timebase, new_timebase)),
            None => None,
        };
        MediaTime { pts, dts, duration, timebase: new_timebase }
    }
}

/// A timestamped piece of a track's elementary stream.
pub struct Packet {
    pub time: MediaTime,
    pub key: bool,
    pub track: Track,
    pub buffer: Span,
}

/// An attached file.
pub struct Attachment {
    pub name: String,
    pub mime: String,
    pub data: Vec<u8>,
}

/// The tracks of a stream, and its attachments.
pub struct Movie {
    pub tracks: Vec<Track>,
    pub attachments: Vec<Attachment>,
}

impl Movie {
    /// A movie with no tracks.
    pub fn new() -> (m: Movie)
        ensures
            m.tracks@.len() == 0,
            m.attachments@.len() == 0,
    {
        Movie { tracks: Vec::new(), attachments: Vec::new() }
    }
}

} // verus!
