//! Primitives of the Video Moving Target Indicator local set: values
//! mapped with fixed IMAP ranges, pixel positions, colours and detection
//! status.
use vstd::prelude::*;
use crate::dyadic::Dyadic;
use crate::imap::{ImapB, ImapConfig, ImapError, ImapFloat, decode, imapb_result, config_of};
use crate::dyadic::{p2, ceil_log2, lemma_pow2_values, lemma_p2_adds};
use crate::misb0601::{unsigned_spec, read_unsigned};
use crate::LengthBytes;

verus! {

/// Errors of the VMTI primitives.
#[derive(Clone, Copy, Debug, PartialEq, Eq, Structural)]
pub enum PrimitiveError {
    /// Fewer bytes than the value needs.
    Truncated,
    /// The mapped value does not decode.
    Imap(ImapError),
    /// The value is outside its enumeration.
    Invalid,
}

pub open spec fn d(mant: int, exp: int) -> Dyadic {
    Dyadic { mant: mant as i128, exp: exp as i32 }
}

/// `[0, 180]` on two bytes: fields of view, in degrees.
pub open spec fn hvfov_config() -> ImapConfig {
    config_of(d(0, 0), d(45, 2), 2)
}

/// `[-19.2, 19.2]` on three bytes: latitude and longitude offsets, in
/// degrees (19.2 as the nearest binary64 value).
pub open spec fn ll_offset_config() -> ImapConfig {
    config_of(d(-5404319552844595, -48), d(5404319552844595, -48), 3)
}

/// `[-90, 90]` on four bytes: latitude, in degrees.
pub open spec fn lat_config() -> ImapConfig {
    config_of(d(-45, 1), d(45, 1), 4)
}

/// `[-180, 180]` on four bytes: longitude, in degrees.
pub open spec fn lon_config() -> ImapConfig {
    config_of(d(-45, 2), d(45, 2), 4)
}

/// `[-900, 900]` on two bytes: velocity and acceleration components.
pub open spec fn motion_config() -> ImapConfig {
    config_of(d(-225, 2), d(225, 2), 2)
}

/// `[0, 650]` on two bytes: standard deviations of position, in metres.
pub open spec fn sigma_config() -> ImapConfig {
    config_of(d(0, 0), d(325, 1), 2)
}

/// `[-1, 1]` on two bytes: correlation coefficients.
pub open spec fn rho_config() -> ImapConfig {
    config_of(d(-1, 0), d(1, 0), 2)
}

/// `[-900, 19000]` on two bytes: height above the ellipsoid, in metres.
pub open spec fn hae_config() -> ImapConfig {
    config_of(d(-225, 2), d(2375, 3), 2)
}

/// Each of the eight ranges can be built.
pub open spec fn tables_buildable() -> bool {
    &&& imapb_result(d(0, 0), d(45, 2), 2) is Ok
    &&& imapb_result(d(-5404319552844595, -48), d(5404319552844595, -48), 3) is Ok
    &&& imapb_result(d(-45, 1), d(45, 1), 4) is Ok
    &&& imapb_result(d(-45, 2), d(45, 2), 4) is Ok
    &&& imapb_result(d(-225, 2), d(225, 2), 2) is Ok
    &&& imapb_result(d(0, 0), d(325, 1), 2) is Ok
    &&& imapb_result(d(-1, 0), d(1, 0), 2) is Ok
    &&& imapb_result(d(-225, 2), d(2375, 3), 2) is Ok
}

/// `ceil(log2(n))` is the `c` with `2^(c-1) < n <= 2^c`.
proof fn lemma_ceil_log2_is(n: int, c: int)
    requires
        c >= 0,
        1 <= n <= p2(c),
        c == 0 || p2(c - 1) < n,
    ensures
        ceil_log2(n) == c,
    decreases c,
{
    lemma_pow2_values();
    if c > 0 {
        vstd::arithmetic::power2::lemma_pow2_unfold(c as nat);
        crate::dyadic::lemma_p2_mono(0, c - 1);
        assert(n >= 2);
        if c == 1 {
            assert(n == 2);
            assert(ceil_log2(1) == 0);
            assert(ceil_log2(2) == 1 + ceil_log2(1));
        } else {
            vstd::arithmetic::power2::lemma_pow2_unfold((c - 1) as nat);
            crate::dyadic::lemma_p2_mono(0, c - 2);
            lemma_ceil_log2_is((n + 1) / 2, c - 1);
            assert(ceil_log2(n) == 1 + ceil_log2((n + 1) / 2));
        }
    }
}

proof fn lemma_hvfov_builds()
    ensures
        imapb_result(d(0, 0), d(45, 2), 2) is Ok,
{
    vstd::arithmetic::power2::lemma2_to64();
    lemma_pow2_values();
    lemma_ceil_log2_is(180, 8);
}

proof fn lemma_ll_offset_builds()
    ensures
        imapb_result(d(-5404319552844595, -48), d(5404319552844595, -48), 3) is Ok,
{
    vstd::arithmetic::power2::lemma2_to64();
    lemma_pow2_values();
    lemma_p2_adds(32, 21);
    lemma_p2_adds(32, 22);
    assert(p2(21) == 0x20_0000 && p2(22) == 0x40_0000 && p2(32) == 0x1_0000_0000);
    assert(p2(53) == 0x20_0000_0000_0000) by (nonlinear_arith)
        requires
            p2(53) == p2(32) * p2(21),
            p2(21) == 0x20_0000,
            p2(32) == 0x1_0000_0000,
    ;
    assert(p2(54) == 0x40_0000_0000_0000) by (nonlinear_arith)
        requires
            p2(54) == p2(32) * p2(22),
            p2(22) == 0x40_0000,
            p2(32) == 0x1_0000_0000,
    ;
    lemma_ceil_log2_is(10808639105689190, 54);
}

proof fn lemma_lat_builds()
    ensures
        imapb_result(d(-45, 1), d(45, 1), 4) is Ok,
{
    vstd::arithmetic::power2::lemma2_to64();
    lemma_pow2_values();
    lemma_ceil_log2_is(90, 7);
}

proof fn lemma_lon_builds()
    ensures
        imapb_result(d(-45, 2), d(45, 2), 4) is Ok,
{
    vstd::arithmetic::power2::lemma2_to64();
    lemma_pow2_values();
    lemma_ceil_log2_is(90, 7);
}

proof fn lemma_motion_builds()
    ensures
        imapb_result(d(-225, 2), d(225, 2), 2) is Ok,
{
    vstd::arithmetic::power2::lemma2_to64();
    lemma_pow2_values();
    lemma_ceil_log2_is(450, 9);
}

proof fn lemma_sigma_builds()
    ensures
        imapb_result(d(0, 0), d(325, 1), 2) is Ok,
{
    vstd::arithmetic::power2::lemma2_to64();
    lemma_pow2_values();
    lemma_ceil_log2_is(650, 10);
}

proof fn lemma_rho_builds()
    ensures
        imapb_result(d(-1, 0), d(1, 0), 2) is Ok,
{
    vstd::arithmetic::power2::lemma2_to64();
    lemma_pow2_values();
    lemma_ceil_log2_is(2, 1);
}

proof fn lemma_hae_builds()
    ensures
        imapb_result(d(-225, 2), d(2375, 3), 2) is Ok,
{
    vstd::arithmetic::power2::lemma2_to64();
    lemma_pow2_values();
    lemma_ceil_log2_is(4975, 13);
}

/// The eight ranges of the tables can always be built.
pub proof fn lemma_tables_buildable()
    ensures
        tables_buildable(),
{
    lemma_hvfov_builds();
    lemma_ll_offset_builds();
    lemma_lat_builds();
    lemma_lon_builds();
    lemma_motion_builds();
    lemma_sigma_builds();
    lemma_rho_builds();
    lemma_hae_builds();
}

/// The IMAP ranges of the VMTI local set, built once and shared by the
/// decoders.
#[derive(Clone, Copy, Debug)]
pub struct Misb0903Tables {
    hvfov: ImapB,
    ll_offset: ImapB,
    lat: ImapB,
    lon: ImapB,
    motion: ImapB,
    sigma: ImapB,
    rho: ImapB,
    hae: ImapB,
}

impl Misb0903Tables {
    pub closed spec fn wf(&self) -> bool {
        &&& self.hvfov.wf() && self.hvfov@ == hvfov_config()
        &&& self.ll_offset.wf() && self.ll_offset@ == ll_offset_config()
        &&& self.lat.wf() && self.lat@ == lat_config()
        &&& self.lon.wf() && self.lon@ == lon_config()
        &&& self.motion.wf() && self.motion@ == motion_config()
        &&& self.sigma.wf() && self.sigma@ == sigma_config()
        &&& self.rho.wf() && self.rho@ == rho_config()
        &&& self.hae.wf() && self.hae@ == hae_config()
    }

    /// Builds the eight mappings; this always succeeds.
    pub fn new() -> (r: Result<Misb0903Tables, ImapError>)
        ensures
            r matches Ok(t) && t.wf(),
    {
        proof {
            lemma_tables_buildable();
        }
        let hvfov = ImapB::new(Dyadic { mant: 0, exp: 0 }, Dyadic { mant: 45, exp: 2 }, 2)?;
        let ll_offset = ImapB::new(
            Dyadic { mant: -5404319552844595, exp: -48 },
            Dyadic { mant: 5404319552844595, exp: -48 },
            3,
        )?;
        let lat = ImapB::new(Dyadic { mant: -45, exp: 1 }, Dyadic { mant: 45, exp: 1 }, 4)?;
        let lon = ImapB::new(Dyadic { mant: -45, exp: 2 }, Dyadic { mant: 45, exp: 2 }, 4)?;
        let motion = ImapB::new(Dyadic { mant: -225, exp: 2 }, Dyadic { mant: 225, exp: 2 }, 2)?;
        let sigma = ImapB::new(Dyadic { mant: 0, exp: 0 }, Dyadic { mant: 325, exp: 1 }, 2)?;
        let rho = ImapB::new(Dyadic { mant: -1, exp: 0 }, Dyadic { mant: 1, exp: 0 }, 2)?;
        let hae = ImapB::new(Dyadic { mant: -225, exp: 2 }, Dyadic { mant: 2375, exp: 3 }, 2)?;
        Ok(Misb0903Tables { hvfov, ll_offset, lat, lon, motion, sigma, rho, hae })
    }
}

/// The value mapped in `c.len` bytes of `s` from `at` on.
pub open spec fn imap_read(c: ImapConfig, s: Seq<u8>, at: int) -> Result<ImapFloat, PrimitiveError> {
    if s.len() < at + c.len {
        Err(PrimitiveError::Truncated)
    } else {
        match decode(c, s.subrange(at, at + c.len), Err(ImapError::UserDefinedValue)) {
            Ok(v) => Ok(v),
            Err(e) => Err(PrimitiveError::Imap(e)),
        }
    }
}

/// The value mapped in the first `len` bytes of `s`; bytes of another
/// length than the mapping's give its length error.
pub open spec fn imap_parse(c: ImapConfig, len: int, s: Seq<u8>) -> Result<ImapFloat, PrimitiveError> {
    if s.len() < len {
        Err(PrimitiveError::Truncated)
    } else {
        match decode(c, s.subrange(0, len), Err(ImapError::UserDefinedValue)) {
            Ok(v) => Ok(v),
            Err(e) => Err(PrimitiveError::Imap(e)),
        }
    }
}

/// Decodes the value that `imap` maps in the `len` bytes at the front of `s`.
pub fn imapb_parser(imap: &ImapB, len: usize, s: &[u8]) -> (r: Result<ImapFloat, PrimitiveError>)
    requires
        imap.wf(),
    ensures
        r == imap_parse(imap@, len as int, s@),
{
    if s.len() < len {
        return Err(PrimitiveError::Truncated);
    }
    let bytes = vstd::slice::slice_subrange(s, 0, len);
    match imap.from_imap(bytes) {
        Ok(v) => Ok(v),
        Err(e) => Err(PrimitiveError::Imap(e)),
    }
}

fn read_imap_at(imap: &ImapB, s: &[u8], at: usize) -> (r: Result<ImapFloat, PrimitiveError>)
    requires
        imap.wf(),
    ensures
        r == imap_read(imap@, s@, at as int),
{
    let len = imap.byte_len();
    if s.len() < len || s.len() - len < at {
        return Err(PrimitiveError::Truncated);
    }
    let bytes = vstd::slice::slice_subrange(s, at, at + len);
    match imap.from_imap(bytes) {
        Ok(v) => Ok(v),
        Err(e) => Err(PrimitiveError::Imap(e)),
    }
}

/// VMTI horizontal and vertical field of view.
pub fn to_hvfov(t: &Misb0903Tables, s: &[u8]) -> (r: Result<ImapFloat, PrimitiveError>)
    requires
        t.wf(),
    ensures
        r == imap_read(hvfov_config(), s@, 0),
{
    read_imap_at(&t.hvfov, s, 0)
}

/// Target location and bounding box latitude and longitude offsets.
pub fn to_ll_offset(t: &Misb0903Tables, s: &[u8]) -> (r: Result<ImapFloat, PrimitiveError>)
    requires
        t.wf(),
    ensures
        r == imap_read(ll_offset_config(), s@, 0),
{
    read_imap_at(&t.ll_offset, s, 0)
}

/// Target height above the ellipsoid.
pub fn to_hae(t: &Misb0903Tables, s: &[u8]) -> (r: Result<ImapFloat, PrimitiveError>)
    requires
        t.wf(),
    ensures
        r == imap_read(hae_config(), s@, 0),
{
    read_imap_at(&t.hae, s, 0)
}

/// A confidence in `[0, 100]` mapped on the `len` bytes of `s`.
pub fn to_confidence(len: usize, s: &[u8]) -> (r: Result<ImapFloat, PrimitiveError>)
    ensures
        match imapb_result(d(0, 0), d(25, 2), len) {
            Ok(c) => r == imap_read(c, s@, 0),
            Err(e) => r == Err::<ImapFloat, PrimitiveError>(PrimitiveError::Imap(e)),
        },
{
    match ImapB::new(Dyadic { mant: 0, exp: 0 }, Dyadic { mant: 25, exp: 2 }, len) {
        Ok(imap) => read_imap_at(&imap, s, 0),
        Err(e) => Err(PrimitiveError::Imap(e)),
    }
}

/// Standard deviations and correlation coefficients of an east-north-up
/// measurement.
#[derive(Clone, Copy, Debug, PartialEq, Eq, Structural)]
pub struct EnuMeasurements {
    pub sig_east: ImapFloat,
    pub sig_north: ImapFloat,
    pub sig_up: ImapFloat,
    pub rho_east_north: ImapFloat,
    pub rho_east_up: ImapFloat,
    pub rho_north_up: ImapFloat,
}

pub open spec fn enu_spec(s: Seq<u8>, at: int) -> Result<EnuMeasurements, PrimitiveError> {
    match imap_read(sigma_config(), s, at) {
        Err(e) => Err(e),
        Ok(a) => match imap_read(sigma_config(), s, at + 2) {
            Err(e) => Err(e),
            Ok(b) => match imap_read(sigma_config(), s, at + 4) {
                Err(e) => Err(e),
                Ok(c) => match imap_read(rho_config(), s, at + 6) {
                    Err(e) => Err(e),
                    Ok(x) => match imap_read(rho_config(), s, at + 8) {
                        Err(e) => Err(e),
                        Ok(y) => match imap_read(rho_config(), s, at + 10) {
                            Err(e) => Err(e),
                            Ok(z) => Ok(
                                EnuMeasurements {
                                    sig_east: a,
                                    sig_north: b,
                                    sig_up: c,
                                    rho_east_north: x,
                                    rho_east_up: y,
                                    rho_north_up: z,
                                },
                            ),
                        },
                    },
                },
            },
        },
    }
}

impl LengthBytes for EnuMeasurements {
    open spec fn spec_length_bytes() -> nat {
        12
    }

    fn length_bytes() -> (r: usize) {
        12
    }
}

impl EnuMeasurements {
    /// Decodes three standard deviations in `[0, 650]` and three
    /// correlation coefficients in `[-1, 1]`, two bytes each.
    pub fn decode(t: &Misb0903Tables, s: &[u8]) -> (r: Result<EnuMeasurements, PrimitiveError>)
        requires
            t.wf(),
        ensures
            r == enu_spec(s@, 0),
    {
        Self::decode_at(t, s, 0)
    }

    fn decode_at(t: &Misb0903Tables, s: &[u8], at: usize) -> (r: Result<EnuMeasurements, PrimitiveError>)
        requires
            t.wf(),
            at <= 1000,
        ensures
            r == enu_spec(s@, at as int),
    {
        let sig_east = read_imap_at(&t.sigma, s, at)?;
        let sig_north = read_imap_at(&t.sigma, s, at + 2)?;
        let sig_up = read_imap_at(&t.sigma, s, at + 4)?;
        let rho_east_north = read_imap_at(&t.rho, s, at + 6)?;
        let rho_east_up = read_imap_at(&t.rho, s, at + 8)?;
        let rho_north_up = read_imap_at(&t.rho, s, at + 10)?;
        Ok(EnuMeasurements { sig_east, sig_north, sig_up, rho_east_north, rho_east_up, rho_north_up })
    }
}

/// A location: latitude, longitude, height above the ellipsoid and their
/// measurement statistics.
#[derive(Clone, Copy, Debug, PartialEq, Eq, Structural)]
pub struct Location {
    pub latitude: ImapFloat,
    pub longitude: ImapFloat,
    pub hae: ImapFloat,
    pub measurements: EnuMeasurements,
}

pub open spec fn location_spec(s: Seq<u8>, at: int) -> Result<Location, PrimitiveError> {
    match imap_read(lat_config(), s, at) {
        Err(e) => Err(e),
        Ok(a) => match imap_read(lon_config(), s, at + 4) {
            Err(e) => Err(e),
            Ok(b) => match imap_read(hae_config(), s, at + 8) {
                Err(e) => Err(e),
                Ok(c) => match enu_spec(s, at + 10) {
                    Err(e) => Err(e),
                    Ok(m) => Ok(Location { latitude: a, longitude: b, hae: c, measurements: m }),
                },
            },
        },
    }
}

impl LengthBytes for Location {
    open spec fn spec_length_bytes() -> nat {
        22
    }

    fn length_bytes() -> (r: usize) {
        22
    }
}

impl Location {
    /// Decodes latitude (four bytes), longitude (four bytes), height above
    /// the ellipsoid (two bytes) and the measurement statistics.
    pub fn decode(t: &Misb0903Tables, s: &[u8]) -> (r: Result<Location, PrimitiveError>)
        requires
            t.wf(),
        ensures
            r == location_spec(s@, 0),
    {
        let latitude = read_imap_at(&t.lat, s, 0)?;
        let longitude = read_imap_at(&t.lon, s, 4)?;
        let hae = read_imap_at(&t.hae, s, 8)?;
        let measurements = EnuMeasurements::decode_at(t, s, 10)?;
        Ok(Location { latitude, longitude, hae, measurements })
    }
}

/// Components of a derivative of position and their statistics.
#[derive(Clone, Copy, Debug, PartialEq, Eq, Structural)]
pub struct MotionValues {
    pub east: ImapFloat,
    pub north: ImapFloat,
    pub up: ImapFloat,
    pub measurements: EnuMeasurements,
}

pub open spec fn motion_spec(s: Seq<u8>) -> Result<MotionValues, PrimitiveError> {
    match imap_read(motion_config(), s, 0) {
        Err(e) => Err(e),
        Ok(a) => match imap_read(motion_config(), s, 2) {
            Err(e) => Err(e),
            Ok(b) => match imap_read(motion_config(), s, 4) {
                Err(e) => Err(e),
                Ok(c) => match enu_spec(s, 6) {
                    Err(e) => Err(e),
                    Ok(m) => Ok(MotionValues { east: a, north: b, up: c, measurements: m }),
                },
            },
        },
    }
}

impl LengthBytes for MotionValues {
    open spec fn spec_length_bytes() -> nat {
        18
    }

    fn length_bytes() -> (r: usize) {
        18
    }
}

impl MotionValues {
    /// Decodes east, north and up components in `[-900, 900]`, two bytes
    /// each, and the measurement statistics.
    pub fn decode(t: &Misb0903Tables, s: &[u8]) -> (r: Result<MotionValues, PrimitiveError>)
        requires
            t.wf(),
        ensures
            r == motion_spec(s@),
    {
        let east = read_imap_at(&t.motion, s, 0)?;
        let north = read_imap_at(&t.motion, s, 2)?;
        let up = read_imap_at(&t.motion, s, 4)?;
        let measurements = EnuMeasurements::decode_at(t, s, 6)?;
        Ok(MotionValues { east, north, up, measurements })
    }
}

/// Velocity (first derivative of position) or acceleration (second).
#[derive(Clone, Copy, Debug, PartialEq, Eq, Structural)]
pub enum Motion {
    Velocity(MotionValues),
    Acceleration(MotionValues),
}

impl Motion {
    /// Decodes a velocity.
    pub fn decode_velocity(t: &Misb0903Tables, s: &[u8]) -> (r: Result<Motion, PrimitiveError>)
        requires
            t.wf(),
        ensures
            match motion_spec(s@) {
                Ok(m) => r == Ok::<Motion, PrimitiveError>(Motion::Velocity(m)),
                Err(e) => r == Err::<Motion, PrimitiveError>(e),
            },
    {
        Ok(Motion::Velocity(MotionValues::decode(t, s)?))
    }

    /// Decodes an acceleration.
    pub fn decode_acceleration(t: &Misb0903Tables, s: &[u8]) -> (r: Result<Motion, PrimitiveError>)
        requires
            t.wf(),
        ensures
            match motion_spec(s@) {
                Ok(m) => r == Ok::<Motion, PrimitiveError>(Motion::Acceleration(m)),
                Err(e) => r == Err::<Motion, PrimitiveError>(e),
            },
    {
        Ok(Motion::Acceleration(MotionValues::decode(t, s)?))
    }
}

/// An RGB colour.
#[derive(Clone, Copy, Debug, PartialEq, Eq, Structural)]
pub struct Color {
    pub red: u8,
    pub green: u8,
    pub blue: u8,
}

impl Color {
    /// Decodes red, green and blue, one byte each.
    pub fn decode(s: &[u8]) -> (r: Result<Color, PrimitiveError>)
        ensures
            s@.len() < 3 ==> r == Err::<Color, PrimitiveError>(PrimitiveError::Truncated),
            s@.len() >= 3 ==> r == Ok::<Color, PrimitiveError>(Color { red: s@[0], green: s@[1], blue: s@[2] }),
    {
        if s.len() < 3 {
            return Err(PrimitiveError::Truncated);
        }
        Ok(Color { red: s[0], green: s[1], blue: s[2] })
    }
}

/// A pixel number of a motion-imagery frame.
#[derive(Clone, Copy, Debug, PartialEq, Eq, Structural)]
pub struct PixelPosition {
    pub num: u32,
}

/// The row and column of pixel `num` in a frame `width` pixels wide, as this
/// library defines them: the row is `num / width + 1`, and the column is
/// `(num - (row - 1)) * width`.
pub open spec fn row_col(num: int, width: int) -> (int, int) {
    let row = num / width + 1;
    let col = (num - (row - 1)) * width;
    (row, if col > u32::MAX { u32::MAX as int } else { col })
}

impl PixelPosition {
    pub fn new(num: u32) -> (r: PixelPosition)
        ensures
            r.num == num,
    {
        PixelPosition { num }
    }

    /// The row and column of this pixel for a frame width; a column beyond
    /// the range of `u32` is held at `u32::MAX`.
    pub fn to_rc(&self, width: u32) -> (r: (u32, u32))
        requires
            width >= 1,
            self.num / width < u32::MAX,
        ensures
            r.0 == row_col(self.num as int, width as int).0,
            r.1 == row_col(self.num as int, width as int).1,
    {
        let row: u32 = self.num / width + 1;
        proof {
            assert(self.num / width <= self.num) by (nonlinear_arith)
                requires
                    width >= 1,
            ;
        }
        let span: u64 = (self.num - (row - 1)) as u64;
        proof {
            assert(span * width <= 0xFFFF_FFFF * 0xFFFF_FFFF) by (nonlinear_arith)
                requires
                    span <= 0xFFFF_FFFF,
                    width <= 0xFFFF_FFFF,
            ;
        }
        let col: u64 = span * width as u64;
        if col > u32::MAX as u64 {
            (row, u32::MAX)
        } else {
            (row, col as u32)
        }
    }

    /// Decodes a pixel number held in the `len` bytes of `s`.
    pub fn decode(len: usize, s: &[u8]) -> (r: Result<PixelPosition, PrimitiveError>)
        requires
            1 <= len <= 4,
        ensures
            match unsigned_spec(s@, len as int) {
                Ok(v) => r == Ok::<PixelPosition, PrimitiveError>(PixelPosition { num: v as u32 }),
                Err(_) => r == Err::<PixelPosition, PrimitiveError>(PrimitiveError::Truncated),
            },
    {
        proof {
            crate::dyadic::lemma_pow2_values();
            crate::dyadic::lemma_p2_mono(8 * len, 32);
            vstd::arithmetic::power2::lemma2_to64();
        }
        match read_unsigned(s, len) {
            Ok(v) => Ok(PixelPosition { num: v as u32 }),
            Err(_) => Err(PrimitiveError::Truncated),
        }
    }
}

/// Detection status of a target.
#[derive(Clone, Copy, Debug, PartialEq, Eq, Structural)]
pub enum DetectionStatus {
    Inactive,
    ActiveMoving,
    Dropped,
    ActiveStopped,
    ActiveCoasting,
}

pub open spec fn status_of(b: u8) -> Option<DetectionStatus> {
    if b == 0 {
        Some(DetectionStatus::Inactive)
    } else if b == 1 {
        Some(DetectionStatus::ActiveMoving)
    } else if b == 2 {
        Some(DetectionStatus::Dropped)
    } else if b == 3 {
        Some(DetectionStatus::ActiveStopped)
    } else if b == 4 {
        Some(DetectionStatus::ActiveCoasting)
    } else {
        None
    }
}

impl DetectionStatus {
    /// Decodes the one-byte status: 0 to 4.
    pub fn decode(s: &[u8]) -> (r: Result<DetectionStatus, PrimitiveError>)
        ensures
            s@.len() == 0 ==> r == Err::<DetectionStatus, PrimitiveError>(PrimitiveError::Truncated),
            s@.len() >= 1 ==> match status_of(s@[0]) {
                Some(v) => r == Ok::<DetectionStatus, PrimitiveError>(v),
                None => r == Err::<DetectionStatus, PrimitiveError>(PrimitiveError::Invalid),
            },
    {
        if s.len() < 1 {
            return Err(PrimitiveError::Truncated);
        }
        match s[0] {
            0 => Ok(DetectionStatus::Inactive),
            1 => Ok(DetectionStatus::ActiveMoving),
            2 => Ok(DetectionStatus::Dropped),
            3 => Ok(DetectionStatus::ActiveStopped),
            4 => Ok(DetectionStatus::ActiveCoasting),
            _ => Err(PrimitiveError::Invalid),
        }
    }

    /// The one byte of this status.
    pub fn encode(&self) -> (r: Vec<u8>)
        ensures
            r@.len() == 1,
            status_of(r@[0]) == Some(*self),
    {
        let b: u8 = match self {
            DetectionStatus::Inactive => 0,
            DetectionStatus::ActiveMoving => 1,
            DetectionStatus::Dropped => 2,
            DetectionStatus::ActiveStopped => 3,
            DetectionStatus::ActiveCoasting => 4,
        };
        let mut out: Vec<u8> = Vec::new();
        out.push(b);
        out
    }
}

} // verus!
