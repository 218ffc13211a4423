//! Field codecs of the UAS Datalink local set: fixed-width big-endian
//! integers with a linear scale, some with a reserved "out of range"
//! pattern, the precision timestamp, and flag and enumeration fields.
use vstd::prelude::*;
use crate::dyadic::{p2, pow2_u128, lemma_pow2_values, lemma_p2_mono};
use crate::imap::{be_value, be_bytes, be_bytes_exec, lemma_be_value_bound};

verus! {

/// Errors of field decoding.
#[derive(Clone, Copy, Debug, PartialEq, Eq, Structural)]
pub enum FieldError {
    /// Fewer bytes than the field's width.
    Truncated,
    /// The value is the field's reserved pattern.
    Reserved,
    /// The value is outside the field's enumeration.
    Invalid,
}

/// A linearly scaled field value: `raw * num / den - offset`, exactly.
#[derive(Clone, Copy, Debug, PartialEq, Eq, Structural)]
pub struct Scaled {
    pub raw: i64,
    pub num: u64,
    pub den: u64,
    pub offset: i64,
}

/// The unsigned big-endian integer in the first `width` bytes of `s`.
pub open spec fn unsigned_spec(s: Seq<u8>, width: int) -> Result<int, FieldError> {
    if s.len() < width {
        Err(FieldError::Truncated)
    } else {
        Ok(be_value(s.subrange(0, width)))
    }
}

/// The two's-complement big-endian integer in the first `width` bytes of `s`.
pub open spec fn signed_spec(s: Seq<u8>, width: int) -> Result<int, FieldError> {
    match unsigned_spec(s, width) {
        Err(e) => Err(e),
        Ok(v) => Ok(if v >= p2(8 * width - 1) { v - p2(8 * width) } else { v }),
    }
}

/// Reads the unsigned big-endian integer of `width` bytes at the front of `s`.
pub fn read_unsigned(s: &[u8], width: usize) -> (r: Result<u64, FieldError>)
    requires
        1 <= width <= 8,
    ensures
        match unsigned_spec(s@, width as int) {
            Ok(v) => r == Ok::<u64, FieldError>(v as u64) && 0 <= v < p2(8 * width),
            Err(e) => r == Err::<u64, FieldError>(e),
        },
{
    if s.len() < width {
        return Err(FieldError::Truncated);
    }
    let ghost body = s@.subrange(0, width as int);
    let mut acc: u64 = 0;
    let mut i: usize = 0;
    proof {
        lemma_pow2_values();
    }
    while i < width
        invariant
            i <= width <= 8,
            width <= s@.len(),
            body == s@.subrange(0, width as int),
            acc == be_value(body.take(i as int)),
            acc < p2(8 * i),
        decreases width - i,
    {
        proof {
            lemma_be_value_bound(body.take(i + 1));
            assert(body.take(i + 1).drop_last() =~= body.take(i as int));
            lemma_p2_mono(8 * (i + 1), 64);
            lemma_pow2_values();
        }
        acc = acc * 256 + s[i] as u64;
        i = i + 1;
    }
    assert(body.take(width as int) =~= body);
    proof {
        lemma_be_value_bound(body);
    }
    Ok(acc)
}

/// Reads the two's-complement big-endian integer of `width` bytes at the
/// front of `s`.
pub fn read_signed(s: &[u8], width: usize) -> (r: Result<i64, FieldError>)
    requires
        1 <= width <= 8,
    ensures
        match signed_spec(s@, width as int) {
            Ok(v) => r == Ok::<i64, FieldError>(v as i64) && -p2(8 * width - 1) <= v < p2(8 * width - 1),
            Err(e) => r == Err::<i64, FieldError>(e),
        },
{
    let u = read_unsigned(s, width)?;
    proof {
        lemma_pow2_values();
        lemma_p2_mono(8 * width - 1, 63);
        lemma_p2_mono(8 * width, 64);
        vstd::arithmetic::power2::lemma_pow2_unfold((8 * width) as nat);
    }
    let half: u128 = pow2_u128((8 * width - 1) as u32);
    if (u as u128) >= half {
        let full: i128 = (half * 2) as i128;
        Ok((u as i128 - full) as i64)
    } else {
        Ok(u as i64)
    }
}

/// An unsigned field of `width` bytes scaled by `num / den`, less `offset`.
pub open spec fn unsigned_scaled(s: Seq<u8>, width: int, num: u64, den: u64, offset: i64) -> Result<Scaled, FieldError> {
    match unsigned_spec(s, width) {
        Err(e) => Err(e),
        Ok(v) => Ok(Scaled { raw: v as i64, num, den, offset }),
    }
}

/// A signed field of `width` bytes scaled by `num / den`; when `reserved`
/// the most negative value is the reserved pattern.
pub open spec fn signed_scaled(s: Seq<u8>, width: int, reserved: bool, num: u64, den: u64) -> Result<Scaled, FieldError> {
    match signed_spec(s, width) {
        Err(e) => Err(e),
        Ok(v) => if reserved && v == -p2(8 * width - 1) {
            Err(FieldError::Reserved)
        } else {
            Ok(Scaled { raw: v as i64, num, den, offset: 0 })
        },
    }
}

fn unsigned_field(s: &[u8], width: usize, num: u64, den: u64, offset: i64) -> (r: Result<Scaled, FieldError>)
    requires
        1 <= width <= 4,
    ensures
        r == unsigned_scaled(s@, width as int, num, den, offset),
{
    proof {
        lemma_pow2_values();
        lemma_p2_mono(8 * width, 63);
    }
    let v = read_unsigned(s, width)?;
    Ok(Scaled { raw: v as i64, num, den, offset })
}

fn signed_field(s: &[u8], width: usize, reserved: bool, num: u64, den: u64) -> (r: Result<Scaled, FieldError>)
    requires
        1 <= width <= 8,
    ensures
        r == signed_scaled(s@, width as int, reserved, num, den),
{
    let v = read_signed(s, width)?;
    proof {
        lemma_pow2_values();
        lemma_p2_mono(8 * width - 1, 63);
    }
    if reserved {
        let half: u128 = pow2_u128((8 * width - 1) as u32);
        if v as i128 == -(half as i128) {
            return Err(FieldError::Reserved);
        }
    }
    Ok(Scaled { raw: v, num, den, offset: 0 })
}

/// Precision timestamp: microseconds since 1970-01-01T00:00:00Z, not
/// counting leap seconds, as a big-endian 64-bit integer.
pub fn to_precision_timestamp(s: &[u8]) -> (r: Result<u64, FieldError>)
    ensures
        match unsigned_spec(s@, 8) {
            Ok(v) => r == Ok::<u64, FieldError>(v as u64),
            Err(e) => r == Err::<u64, FieldError>(e),
        },
{
    read_unsigned(s, 8)
}

/// The whole seconds and the nanoseconds of a count of microseconds.
pub fn split_micros(micros: u64) -> (r: (u64, u32))
    ensures
        r.0 == micros / 1_000_000,
        r.1 == (micros % 1_000_000) * 1000,
{
    (micros / 1_000_000, ((micros % 1_000_000) * 1000) as u32)
}

/// The precision timestamp bytes of a time given as seconds and
/// nanoseconds since the epoch.
pub fn from_precision_timestamp(seconds: u64, nanoseconds: u32) -> (r: Vec<u8>)
    requires
        seconds * 1_000_000 + nanoseconds / 1000 <= u64::MAX,
    ensures
        r@ == be_bytes(seconds * 1_000_000 + nanoseconds / 1000, 8),
{
    let micros: u64 = seconds * 1_000_000 + (nanoseconds / 1000) as u64;
    be_bytes_exec(micros as u128, 8)
}

/// Sensor latitude and frame centre latitude: degrees, `raw * 180 / 4294967294`.
pub fn to_lat(s: &[u8]) -> (r: Result<Scaled, FieldError>)
    ensures
        r == signed_scaled(s@, 4, true, 180, 4294967294),
{
    signed_field(s, 4, true, 180, 4294967294)
}

/// Sensor longitude and frame centre longitude: degrees, `raw * 360 / 4294967294`.
pub fn to_lon(s: &[u8]) -> (r: Result<Scaled, FieldError>)
    ensures
        r == signed_scaled(s@, 4, true, 360, 4294967294),
{
    signed_field(s, 4, true, 360, 4294967294)
}

/// Altitudes and elevations: metres, `raw * 19900 / 65535 - 900`.
pub fn to_alt(s: &[u8]) -> (r: Result<Scaled, FieldError>)
    ensures
        r == unsigned_scaled(s@, 2, 19900, 65535, 900),
{
    unsigned_field(s, 2, 19900, 65535, 900)
}

/// Platform heading angle: degrees, `raw * 360 / 65535`.
pub fn to_platform_heading_angle(s: &[u8]) -> (r: Result<Scaled, FieldError>)
    ensures
        r == unsigned_scaled(s@, 2, 360, 65535, 0),
{
    unsigned_field(s, 2, 360, 65535, 0)
}

/// Platform pitch angle and angle of attack: degrees, `raw * 40 / 65534`.
pub fn to_platform_pitch_angle(s: &[u8]) -> (r: Result<Scaled, FieldError>)
    ensures
        r == signed_scaled(s@, 2, true, 40, 65534),
{
    signed_field(s, 2, true, 40, 65534)
}

/// Platform roll angle: degrees, `raw * 100 / 65534`.
pub fn to_platform_roll_angle(s: &[u8]) -> (r: Result<Scaled, FieldError>)
    ensures
        r == signed_scaled(s@, 2, true, 100, 65534),
{
    signed_field(s, 2, true, 100, 65534)
}

/// Sensor horizontal and vertical field of view: degrees, `raw * 180 / 65535`.
pub fn to_sensor_hvfov(s: &[u8]) -> (r: Result<Scaled, FieldError>)
    ensures
        r == unsigned_scaled(s@, 2, 180, 65535, 0),
{
    unsigned_field(s, 2, 180, 65535, 0)
}

/// Sensor relative azimuth and roll angles: degrees, `raw * 360 / 4294967295`.
pub fn to_sensor_relative_azimuth_angle(s: &[u8]) -> (r: Result<Scaled, FieldError>)
    ensures
        r == unsigned_scaled(s@, 4, 360, 4294967295, 0),
{
    unsigned_field(s, 4, 360, 4294967295, 0)
}

/// Sensor relative elevation angle: degrees, `raw * 360 / 4294967294`.
pub fn to_sensor_relative_elevation_angle(s: &[u8]) -> (r: Result<Scaled, FieldError>)
    ensures
        r == signed_scaled(s@, 4, false, 360, 4294967294),
{
    signed_field(s, 4, false, 360, 4294967294)
}

/// Slant range: metres, `raw * 5000000 / 4294967295`.
pub fn to_slant_range(s: &[u8]) -> (r: Result<Scaled, FieldError>)
    ensures
        r == unsigned_scaled(s@, 4, 5_000_000, 4294967295, 0),
{
    unsigned_field(s, 4, 5_000_000, 4294967295, 0)
}

/// Target width: metres, `raw * 10000 / 65535`.
pub fn to_target_width(s: &[u8]) -> (r: Result<Scaled, FieldError>)
    ensures
        r == unsigned_scaled(s@, 2, 10_000, 65535, 0),
{
    unsigned_field(s, 2, 10_000, 65535, 0)
}

/// Offset corner latitudes and longitudes: degrees, `raw * 0.15 / 65534`.
pub fn to_offset_ll(s: &[u8]) -> (r: Result<Scaled, FieldError>)
    ensures
        r == signed_scaled(s@, 2, false, 15, 6_553_400),
{
    signed_field(s, 2, false, 15, 6_553_400)
}

/// Wind direction: degrees, `raw * 360 / 65535`.
pub fn to_wind_direction(s: &[u8]) -> (r: Result<Scaled, FieldError>)
    ensures
        r == unsigned_scaled(s@, 2, 360, 65535, 0),
{
    unsigned_field(s, 2, 360, 65535, 0)
}

/// Wind speed: metres per second, `raw * 100 / 255`.
pub fn to_wind_speed(s: &[u8]) -> (r: Result<Scaled, FieldError>)
    ensures
        r == unsigned_scaled(s@, 1, 100, 255, 0),
{
    unsigned_field(s, 1, 100, 255, 0)
}

/// Static and differential pressure: millibar, `raw * 5000 / 65535`.
pub fn to_mbar_pressure(s: &[u8]) -> (r: Result<Scaled, FieldError>)
    ensures
        r == unsigned_scaled(s@, 2, 5000, 65535, 0),
{
    unsigned_field(s, 2, 5000, 65535, 0)
}

/// Target error estimates: metres, `raw * 4095 / 65535`.
pub fn to_error_estimate(s: &[u8]) -> (r: Result<Scaled, FieldError>)
    ensures
        r == unsigned_scaled(s@, 2, 4095, 65535, 0),
{
    unsigned_field(s, 2, 4095, 65535, 0)
}

/// Platform vertical speed: metres per second, `raw * 360 / 65534`.
pub fn to_platform_vertical_speed(s: &[u8]) -> (r: Result<Scaled, FieldError>)
    ensures
        r == signed_scaled(s@, 2, true, 360, 65534),
{
    signed_field(s, 2, true, 360, 65534)
}

/// Target track gate width and height: pixels, twice the one-byte value.
pub fn to_target_track_gate_hw(s: &[u8]) -> (r: Result<u16, FieldError>)
    ensures
        match unsigned_spec(s@, 1) {
            Ok(v) => r == Ok::<u16, FieldError>((2 * v) as u16),
            Err(e) => r == Err::<u16, FieldError>(e),
        },
{
    let v = read_unsigned(s, 1)?;
    proof {
        lemma_pow2_values();
        vstd::arithmetic::power2::lemma2_to64();
    }
    Ok((2 * v) as u16)
}

/// The two bytes of a track gate size: half of it, big-endian.
pub fn from_target_track_gate_hw(input: u16) -> (r: Vec<u8>)
    ensures
        r@ == be_bytes((input / 2) as int, 2),
{
    be_bytes_exec((input / 2) as u128, 2)
}

/// Icing status of the aircraft.
#[derive(Clone, Copy, Debug, PartialEq, Eq, Structural)]
pub enum Icing {
    DetectorOff,
    NoIcingDetected,
    IcingDetected,
}

/// IR polarity of the sensor image.
#[derive(Clone, Copy, Debug, PartialEq, Eq, Structural)]
pub enum IrPolarity {
    BlackHot,
    WhiteHot,
}

/// Whether the slant range was measured or calculated.
#[derive(Clone, Copy, Debug, PartialEq, Eq, Structural)]
pub enum SlantRangeSource {
    Measured,
    Calculated,
}

pub open spec fn icing_of(b: u8) -> Option<Icing> {
    if b == 0 {
        Some(Icing::DetectorOff)
    } else if b == 1 {
        Some(Icing::NoIcingDetected)
    } else if b == 2 {
        Some(Icing::IcingDetected)
    } else {
        None
    }
}

/// Icing detected: one byte, 0 detector off, 1 no icing, 2 icing.
pub fn to_icing_detected(s: &[u8]) -> (r: Result<Icing, FieldError>)
    ensures
        s@.len() == 0 ==> r == Err::<Icing, FieldError>(FieldError::Truncated),
        s@.len() >= 1 ==> match icing_of(s@[0]) {
            Some(i) => r == Ok::<Icing, FieldError>(i),
            None => r == Err::<Icing, FieldError>(FieldError::Invalid),
        },
{
    if s.len() < 1 {
        return Err(FieldError::Truncated);
    }
    match s[0] {
        0 => Ok(Icing::DetectorOff),
        1 => Ok(Icing::NoIcingDetected),
        2 => Ok(Icing::IcingDetected),
        _ => Err(FieldError::Invalid),
    }
}

/// The byte of an icing status.
pub fn from_icing_detected(input: Icing) -> (r: u8)
    ensures
        icing_of(r) == Some(input),
{
    match input {
        Icing::DetectorOff => 0,
        Icing::NoIcingDetected => 1,
        Icing::IcingDetected => 2,
    }
}

/// The flags of the generic flag data byte.
#[derive(Clone, Copy, Debug, PartialEq, Eq, Structural)]
pub struct GenericFlagData {
    pub laser_range_on: bool,
    pub auto_track_on: bool,
    pub ir_polarity: IrPolarity,
    pub icing_status: Icing,
    pub slant_range_source: SlantRangeSource,
    pub is_image_invalid: bool,
}

/// Bit `i` of `b`.
pub open spec fn bit(b: u8, i: u8) -> bool {
    (b >> i) & 1u8 == 1u8
}

pub open spec fn flags_of(b: u8) -> GenericFlagData {
    GenericFlagData {
        laser_range_on: bit(b, 0),
        auto_track_on: bit(b, 1),
        ir_polarity: if bit(b, 2) { IrPolarity::BlackHot } else { IrPolarity::WhiteHot },
        icing_status: if bit(b, 3) { Icing::IcingDetected } else { Icing::NoIcingDetected },
        slant_range_source: if bit(b, 4) { SlantRangeSource::Measured } else { SlantRangeSource::Calculated },
        is_image_invalid: bit(b, 5),
    }
}

impl GenericFlagData {
    /// Decodes the flag byte: bit 0 laser range finder on, bit 1 auto
    /// track on, bit 2 black-hot polarity, bit 3 icing detected, bit 4
    /// measured slant range, bit 5 invalid image.
    pub fn decode(s: &[u8]) -> (r: Result<GenericFlagData, FieldError>)
        ensures
            s@.len() == 0 ==> r == Err::<GenericFlagData, FieldError>(FieldError::Truncated),
            s@.len() >= 1 ==> r == Ok::<GenericFlagData, FieldError>(flags_of(s@[0])),
    {
        if s.len() < 1 {
            return Err(FieldError::Truncated);
        }
        let value = s[0];
        Ok(GenericFlagData {
            laser_range_on: (value >> 0u8) & 1u8 == 1u8,
            auto_track_on: (value >> 1u8) & 1u8 == 1u8,
            ir_polarity: if (value >> 2u8) & 1u8 == 1u8 { IrPolarity::BlackHot } else { IrPolarity::WhiteHot },
            icing_status: if (value >> 3u8) & 1u8 == 1u8 { Icing::IcingDetected } else { Icing::NoIcingDetected },
            slant_range_source: if (value >> 4u8) & 1u8 == 1u8 {
                SlantRangeSource::Measured
            } else {
                SlantRangeSource::Calculated
            },
            is_image_invalid: (value >> 5u8) & 1u8 == 1u8,
        })
    }
}

} // verus!
