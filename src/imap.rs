//! Floating-point to integer mapping (IMAP): a closed range `[min, max]` of
//! numbers is mapped linearly onto unsigned integers of `len` bytes, with
//! special values for NaN, infinities and out-of-range inputs.
//!
//! Numbers are exact binary fractions (see `crate::dyadic`), so every step
//! of the mapping is computed without rounding: the forward scale is
//! `s_f = 2^k`, the reverse scale `s_r = 2^-k`, and the zero offset is the
//! fractional part of `s_f * min` when the range straddles zero.
use vstd::prelude::*;
use vstd::arithmetic::div_mod::*;
use vstd::arithmetic::power2::lemma2_to64;
use vstd::arithmetic::mul::*;
use vstd::arithmetic::power2::{lemma_pow2_unfold};
use crate::dyadic::{
    Dyadic, p2, shift_floor, less, compare, common_exp, ceil_log2, floor_log2, floor_log2_exec, compare_exec, ceil_log2_exec,
    shl_checked, shr_floor, shift_floor_checked, lemma_shift_floor_down, pow2_u128, lemma_pow2_values, lemma_refine,
    lemma_p2_mono, lemma_p2_adds, lemma_shift_floor_mono, lemma_shift_floor_of_exact,
    lemma_floor_floor, lemma_compare_floor, lemma_compare_at,
};
use crate::special::{SpecialValue, special_bytes, classify, trailing_zero};

verus! {

/// A value of the IEEE-754 value space, as the mapping sees it.
#[derive(Clone, Copy, Debug, PartialEq, Eq, Structural)]
pub enum ImapFloat {
    Finite(Dyadic),
    Infinite { negative: bool },
    NaN { negative: bool },
}

/// Errors of the integer mapping.
#[derive(Clone, Copy, Debug, PartialEq, Eq, Structural)]
pub enum ImapError {
    /// The encoded value is the below-minimum sentinel.
    BelowMinimum,
    /// The encoded value is the above-maximum sentinel.
    AboveMaximum,
    /// The encoded value is a reserved special value.
    ReservedValue,
    /// The encoded value is user defined and no user decoder was given.
    UserDefinedValue,
    /// The leading byte marks a special value that no sentinel matches.
    CannotParseSpecialValue,
    /// The input does not have the mapping's length.
    LengthMismatch { expected: usize, found: usize },
    /// `min < max`, `len >= 1` and `0 < precision < max - min` must hold.
    InvalidInputArgs { min: Dyadic, max: Dyadic, len: Option<usize>, precision: Option<Dyadic> },
    /// The scale factors or the range cannot be held at this width.
    InitError,
}

/// The mapping derived from `min`, `max` and `len`, as integers.
pub struct ImapConfig {
    pub min: Dyadic,
    pub max: Dyadic,
    pub len: nat,
    /// Forward scale `s_f = 2^k`.
    pub k: int,
    /// Working exponent: `min`, `max` and the grid `2^-k` are integers times `2^g`.
    pub g: int,
    /// `min` and `max` in units of `2^g`.
    pub min_g: int,
    pub max_g: int,
    /// The range contains zero strictly inside it.
    pub straddle: bool,
}

/// `2^125`, the bound on the integers the mapping works with.
pub open spec fn work_bound() -> int {
    p2(125)
}

/// `(max - min) / 2^e` at the common exponent `e` of `min` and `max`.
pub open spec fn range_units(min: Dyadic, max: Dyadic) -> int {
    let e = common_exp(min, max);
    max.floor_scaled(-e) - min.floor_scaled(-e)
}

/// `b_pow = ceil(log2(max - min))`.
pub open spec fn b_pow(min: Dyadic, max: Dyadic) -> int {
    common_exp(min, max) + ceil_log2(range_units(min, max))
}

/// `d_pow = 8 * len - 1`: one bit of the top byte is kept for special values.
pub open spec fn d_pow(len: nat) -> int {
    8 * len - 1
}

pub open spec fn config_of(min: Dyadic, max: Dyadic, len: nat) -> ImapConfig {
    let e = common_exp(min, max);
    let k = d_pow(len) - b_pow(min, max);
    let g = if e <= -k { e } else { -k };
    ImapConfig {
        min,
        max,
        len,
        k,
        g,
        min_g: min.floor_scaled(-g),
        max_g: max.floor_scaled(-g),
        straddle: min.mant < 0 && max.mant > 0,
    }
}

/// `t = -k - g`: the grid step `2^-k` is `2^t` units of `2^g`.
pub open spec fn grid_shift(c: ImapConfig) -> int {
    -c.k - c.g
}

pub open spec fn in_bound(v: int) -> bool {
    -work_bound() <= v <= work_bound()
}

/// The mapping can be computed with the integers of this library.
pub open spec fn representable(c: ImapConfig) -> bool {
    &&& in_bound(c.min_g)
    &&& in_bound(c.max_g)
    &&& 8 * (c.len as int) + grid_shift(c) <= 125
    &&& i32::MIN <= c.g
    &&& i32::MIN <= -c.k <= i32::MAX
}

pub open spec fn invalid_args(min: Dyadic, max: Dyadic, len: usize) -> ImapError {
    ImapError::InvalidInputArgs { min, max, len: Some(len), precision: None }
}

/// What construction from `min`, `max` and `len` gives.
pub open spec fn imapb_result(min: Dyadic, max: Dyadic, len: usize) -> Result<ImapConfig, ImapError> {
    if !less(min, max) || len == 0 {
        Err(invalid_args(min, max, len))
    } else if !representable(config_of(min, max, len as nat)) {
        Err(ImapError::InitError)
    } else {
        Ok(config_of(min, max, len as nat))
    }
}

/// The big-endian `len`-byte representation of `y`.
pub open spec fn be_bytes(y: int, len: nat) -> Seq<u8> {
    Seq::new(len, |i: int| ((y / p2(8 * (len - 1 - i))) % 256) as u8)
}

/// The big-endian unsigned integer held by `y`.
pub open spec fn be_value(y: Seq<u8>) -> int
    decreases y.len(),
{
    if y.len() == 0 {
        0
    } else {
        be_value(y.drop_last()) * 256 + y.last()
    }
}

/// The mapped integer of a finite `x` in `[min, max]`:
/// `trunc(s_f * (x - min) + z_offset)`, computed on the `2^g` grid.
pub open spec fn mapped(c: ImapConfig, x: Dyadic) -> int {
    let t = grid_shift(c);
    let xg = x.floor_scaled(-c.g);
    if c.straddle {
        shift_floor(xg, -t) - shift_floor(c.min_g, -t)
    } else {
        shift_floor(xg - c.min_g, -t)
    }
}

/// The encoding of `x`.
pub open spec fn encode(c: ImapConfig, x: ImapFloat) -> Seq<u8> {
    match x {
        ImapFloat::NaN { negative } => special_bytes(
            if negative { SpecialValue::NegQuietNan } else { SpecialValue::PosQuietNan },
            c.len,
        ),
        ImapFloat::Infinite { negative } => special_bytes(
            if negative { SpecialValue::NegInfinity } else { SpecialValue::PosInfinity },
            c.len,
        ),
        ImapFloat::Finite(v) => if less(v, c.min) {
            special_bytes(SpecialValue::ImapBelowMinimum, c.len)
        } else if less(c.max, v) {
            special_bytes(SpecialValue::ImapAboveMaximum, c.len)
        } else {
            be_bytes(mapped(c, v), c.len)
        },
    }
}

/// The mantissa of the number that the mapped integer `n` stands for:
/// `s_r * (n - z_offset) + min`, in units of `2^decoded_exp(c)`.
pub open spec fn decoded_mant(c: ImapConfig, n: int) -> int {
    if c.straddle {
        n + shift_floor(c.min_g, -grid_shift(c))
    } else {
        c.min_g + n * p2(grid_shift(c))
    }
}

pub open spec fn decoded_exp(c: ImapConfig) -> int {
    if c.straddle {
        -c.k
    } else {
        c.g
    }
}

pub open spec fn decoded(c: ImapConfig, n: int) -> Dyadic {
    Dyadic { mant: decoded_mant(c, n) as i128, exp: decoded_exp(c) as i32 }
}

/// Whether the leading byte marks a special value.
pub open spec fn is_special(y: Seq<u8>) -> bool {
    y[0] & 0xC0u8 == 0xC0u8
}

/// What a special value decodes to, with `user` for a user-defined value.
pub open spec fn special_result(
    s: SpecialValue,
    user: Result<ImapFloat, ImapError>,
) -> Result<ImapFloat, ImapError> {
    match s {
        SpecialValue::PosInfinity => Ok(ImapFloat::Infinite { negative: false }),
        SpecialValue::NegInfinity => Ok(ImapFloat::Infinite { negative: true }),
        SpecialValue::PosQuietNan | SpecialValue::PosSignalNan => Ok(ImapFloat::NaN { negative: false }),
        SpecialValue::NegQuietNan | SpecialValue::NegSignalNan => Ok(ImapFloat::NaN { negative: true }),
        SpecialValue::ImapBelowMinimum => Err(ImapError::BelowMinimum),
        SpecialValue::ImapAboveMaximum => Err(ImapError::AboveMaximum),
        SpecialValue::ReservedSpecial | SpecialValue::ReservedMisbDefined => Err(ImapError::ReservedValue),
        SpecialValue::UserDefined => user,
    }
}

/// The decoding of `y`, with `user` for a user-defined value.
pub open spec fn decode(c: ImapConfig, y: Seq<u8>, user: Result<ImapFloat, ImapError>) -> Result<ImapFloat, ImapError> {
    if y.len() != c.len {
        Err(ImapError::LengthMismatch { expected: c.len as usize, found: y.len() as usize })
    } else if is_special(y) {
        match classify(y) {
            Some(s) => special_result(s, user),
            None => Err(ImapError::CannotParseSpecialValue),
        }
    } else {
        Ok(ImapFloat::Finite(decoded(c, be_value(y))))
    }
}

/// Floating Point to Integer Mapping, starting point B: from a range and a
/// length in bytes.
#[derive(Clone, Copy, Debug)]
pub struct ImapB {
    min: Dyadic,
    max: Dyadic,
    len: usize,
    k: i64,
    g: i64,
    t: u64,
    min_g: i128,
    max_g: i128,
    min_k: i128,
    straddle: bool,
}

impl View for ImapB {
    type V = ImapConfig;

    closed spec fn view(&self) -> ImapConfig {
        ImapConfig {
            min: self.min,
            max: self.max,
            len: self.len as nat,
            k: self.k as int,
            g: self.g as int,
            min_g: self.min_g as int,
            max_g: self.max_g as int,
            straddle: self.straddle,
        }
    }
}

impl ImapB {
    /// The mapping is the one its range and length define.
    pub closed spec fn wf(&self) -> bool {
        &&& less(self.min, self.max)
        &&& self.len >= 1
        &&& self@ == config_of(self.min, self.max, self.len as nat)
        &&& representable(self@)
        &&& self.t == grid_shift(self@)
        &&& self.min_k == shift_floor(self.min_g as int, -grid_shift(self@))
    }

    /// The length in bytes of the mapped values.
    pub fn byte_len(&self) -> (r: usize)
        requires
            self.wf(),
        ensures
            r == self@.len,
            1 <= r <= 15,
    {
        self.len
    }

    /// Creates the mapping of `[min, max]` onto `len` bytes.
    pub fn new(min: Dyadic, max: Dyadic, len: usize) -> (r: Result<ImapB, ImapError>)
        ensures
            match imapb_result(min, max, len) {
                Ok(c) => r matches Ok(b) && b@ == c && b.wf(),
                Err(e) => r == Err::<ImapB, ImapError>(e),
            },
    {
        if compare_exec(min, max) != -1 || len == 0 {
            return Err(ImapError::InvalidInputArgs { min, max, len: Some(len), precision: None });
        }
        let ghost c = config_of(min, max, len as nat);
        if len > 15 {
            return Err(ImapError::InitError);
        }
        let e0: i64 = if min.exp <= max.exp { min.exp as i64 } else { max.exp as i64 };
        let lo = match bounded_at(min, e0) {
            Some(v) => v,
            None => {
                proof {
                    lemma_unbounded_finer(min, e0 as int, c.g);
                }
                return Err(ImapError::InitError);
            },
        };
        let hi = match bounded_at(max, e0) {
            Some(v) => v,
            None => {
                proof {
                    lemma_unbounded_finer(max, e0 as int, c.g);
                }
                return Err(ImapError::InitError);
            },
        };
        proof {
            lemma_pow2_values();
        }
        let units: i128 = hi - lo;
        let cl = ceil_log2_exec(units as u128);
        let d: i64 = 8 * (len as i64) - 1;
        let k: i64 = d - (e0 + cl as i64);
        let g: i64 = if e0 <= -k { e0 } else { -k };
        let t: i64 = -k - g;
        if g < i32::MIN as i64 || -k < i32::MIN as i64 || -k > i32::MAX as i64 || 8 * (len as i64) + t > 125 {
            return Err(ImapError::InitError);
        }
        proof {
            lemma_refine(min.mant as int, min.exp - e0, e0 - g);
            lemma_refine(max.mant as int, max.exp - e0, e0 - g);
        }
        let min_g = match shl_checked(lo, (e0 - g) as u64) {
            Some(v) => v,
            None => {
                return Err(ImapError::InitError);
            },
        };
        let max_g = match shl_checked(hi, (e0 - g) as u64) {
            Some(v) => v,
            None => {
                return Err(ImapError::InitError);
            },
        };
        if min_g > 0x2000_0000_0000_0000_0000_0000_0000_0000 || min_g < -0x2000_0000_0000_0000_0000_0000_0000_0000
            || max_g > 0x2000_0000_0000_0000_0000_0000_0000_0000 || max_g < -0x2000_0000_0000_0000_0000_0000_0000_0000 {
            return Err(ImapError::InitError);
        }
        let min_k = shr_floor(min_g, t as u64);
        let straddle = min.mant < 0 && max.mant > 0;
        proof {
            if t == 0 {
                assert(min_g as int / p2(0) == min_g as int * p2(0)) by {
                    lemma_pow2_values();
                }
            }
        }
        Ok(ImapB { min, max, len, k, g, t: t as u64, min_g, max_g, min_k, straddle })
    }
}

impl ImapB {
    /// Maps a value to `len` bytes: NaN and the infinities to their special
    /// values, values outside `[min, max]` to the below-minimum or
    /// above-maximum special value, other values to their mapped integer.
    pub fn to_imap(&self, x: ImapFloat) -> (r: Result<Vec<u8>, ImapError>)
        requires
            self.wf(),
        ensures
            r matches Ok(b) && b@ == encode(self@, x),
    {
        match x {
            ImapFloat::NaN { negative } => {
                let s = if negative { SpecialValue::NegQuietNan } else { SpecialValue::PosQuietNan };
                Ok(s.to_imap(&self.len))
            },
            ImapFloat::Infinite { negative } => {
                let s = if negative { SpecialValue::NegInfinity } else { SpecialValue::PosInfinity };
                Ok(s.to_imap(&self.len))
            },
            ImapFloat::Finite(v) => {
                if compare_exec(v, self.min) == -1 {
                    return Ok(SpecialValue::ImapBelowMinimum.to_imap(&self.len));
                }
                if compare_exec(self.max, v) == -1 {
                    return Ok(SpecialValue::ImapAboveMaximum.to_imap(&self.len));
                }
                let y = self.mapped_exec(v);
                Ok(be_bytes_exec(y, self.len))
            },
        }
    }

    /// Maps a value with a user-defined encoder for the values inside
    /// `[min, max]`; NaN, the infinities and out-of-range values still get
    /// their special values.
    pub fn to_imap_with_encoder<E: Fn(ImapFloat) -> Vec<u8>>(&self, x: ImapFloat, enc: &E) -> (r: Result<Vec<u8>, ImapError>)
        requires
            self.wf(),
            call_requires(*enc, (x,)),
        ensures
            in_range(self@, x) ==> (r matches Ok(b) && call_ensures(*enc, (x,), b)),
            !in_range(self@, x) ==> (r matches Ok(b) && b@ == encode(self@, x)),
    {
        if let ImapFloat::Finite(v) = x {
            if compare_exec(v, self.min) != -1 && compare_exec(self.max, v) != -1 {
                return Ok(enc(x));
            }
        }
        self.to_imap(x)
    }

    /// The mapped integer of a finite value inside the range.
    fn mapped_exec(&self, v: Dyadic) -> (y: u128)
        requires
            self.wf(),
            !less(v, self@.min),
            !less(self@.max, v),
        ensures
            y == mapped(self@, v),
            y <= p2(d_pow(self@.len)),
    {
        let ghost c = self@;
        proof {
            lemma_mapped_bounds(c, v);
            lemma_pow2_values();
        }
        let xg = match shift_floor_checked(v.mant, v.exp as i64 - self.g) {
            Some(a) => a,
            None => {
                proof {
                    assert(false);
                }
                0
            },
        };
        proof {
            lemma_shift_floor_down(xg as int, self.t as int);
            lemma_shift_floor_down(xg - self.min_g, self.t as int);
            lemma_div_floor_bound(xg as int, self.t as int);
            lemma_div_floor_bound(self.min_g as int, self.t as int);
        }
        let y: i128 = if self.straddle {
            shr_floor(xg, self.t) - self.min_k
        } else {
            shr_floor(xg - self.min_g, self.t)
        };
        proof {
            lemma_p2_mono(d_pow(c.len), 125);
        }
        y as u128
    }

    /// Maps `len` bytes back to a value; a user-defined special value is an
    /// error here (see `from_imap_with_decoder`).
    pub fn from_imap(&self, y: &[u8]) -> (r: Result<ImapFloat, ImapError>)
        requires
            self.wf(),
        ensures
            r == decode(self@, y@, Err(ImapError::UserDefinedValue)),
    {
        if y.len() != self.len {
            return Err(ImapError::LengthMismatch { expected: self.len, found: y.len() });
        }
        if y[0] & 0xC0u8 == 0xC0u8 {
            match SpecialValue::classify(y) {
                Some(s) => special_to_result(s, Err(ImapError::UserDefinedValue)),
                None => Err(ImapError::CannotParseSpecialValue),
            }
        } else {
            let n = be_value_exec(y);
            Ok(ImapFloat::Finite(self.decoded_exec(n)))
        }
    }

    /// Maps `len` bytes back to a value, handing a user-defined special
    /// value to `dec`.
    pub fn from_imap_with_decoder<D: Fn(&[u8]) -> ImapFloat>(&self, y: &[u8], dec: &D) -> (r: Result<ImapFloat, ImapError>)
        requires
            self.wf(),
            call_requires(*dec, (y,)),
        ensures
            is_user_defined(self@, y@) ==> (r matches Ok(v) && call_ensures(*dec, (y,), v)),
            !is_user_defined(self@, y@) ==> r == decode(self@, y@, Err(ImapError::UserDefinedValue)),
    {
        if y.len() == self.len && y[0] & 0xC0u8 == 0xC0u8 {
            if let Some(SpecialValue::UserDefined) = SpecialValue::classify(y) {
                return Ok(dec(y));
            }
        }
        self.from_imap(y)
    }

    /// The number a mapped integer stands for.
    fn decoded_exec(&self, n: u128) -> (r: Dyadic)
        requires
            self.wf(),
            n < p2(8 * (self@.len as int)),
        ensures
            r == decoded(self@, n as int),
            r.mant == decoded_mant(self@, n as int),
            r.exp == decoded_exp(self@),
    {
        let ghost c = self@;
        proof {
            lemma_pow2_values();
            lemma_p2_mono(8 * (c.len as int), 125);
            lemma_p2_mono(0, grid_shift(c));
            lemma_div_floor_bound(c.min_g, grid_shift(c));
        }
        if self.straddle {
            Dyadic { mant: n as i128 + self.min_k, exp: (-self.k) as i32 }
        } else {
            let step = pow2_u128(self.t as u32);
            proof {
                lemma_p2_adds(8 * (c.len as int), grid_shift(c));
                assert(n * step < p2(8 * (c.len as int) + grid_shift(c))) by (nonlinear_arith)
                    requires
                        n < p2(8 * (c.len as int)),
                        step == p2(grid_shift(c)),
                        p2(8 * (c.len as int) + grid_shift(c)) == p2(8 * (c.len as int)) * p2(grid_shift(c)),
                        step >= 1,
                ;
                lemma_p2_mono(8 * (c.len as int) + grid_shift(c), 125);
            }
            Dyadic { mant: self.min_g + (n * step) as i128, exp: self.g as i32 }
        }
    }
}

/// A finite value inside `[min, max]`.
pub open spec fn in_range(c: ImapConfig, x: ImapFloat) -> bool {
    x matches ImapFloat::Finite(v) && !less(v, c.min) && !less(c.max, v)
}

/// `y` is the user-defined special value at the mapping's length.
pub open spec fn is_user_defined(c: ImapConfig, y: Seq<u8>) -> bool {
    y.len() == c.len && is_special(y) && classify(y) == Some(SpecialValue::UserDefined)
}

fn special_to_result(s: SpecialValue, user: Result<ImapFloat, ImapError>) -> (r: Result<ImapFloat, ImapError>)
    ensures
        r == special_result(s, user),
{
    match s {
        SpecialValue::PosInfinity => Ok(ImapFloat::Infinite { negative: false }),
        SpecialValue::NegInfinity => Ok(ImapFloat::Infinite { negative: true }),
        SpecialValue::PosQuietNan | SpecialValue::PosSignalNan => Ok(ImapFloat::NaN { negative: false }),
        SpecialValue::NegQuietNan | SpecialValue::NegSignalNan => Ok(ImapFloat::NaN { negative: true }),
        SpecialValue::ImapBelowMinimum => Err(ImapError::BelowMinimum),
        SpecialValue::ImapAboveMaximum => Err(ImapError::AboveMaximum),
        SpecialValue::ReservedSpecial | SpecialValue::ReservedMisbDefined => Err(ImapError::ReservedValue),
        SpecialValue::UserDefined => user,
    }
}

/// The big-endian `len`-byte representation of `y`.
pub(crate) fn be_bytes_exec(y: u128, len: usize) -> (r: Vec<u8>)
    requires
        1 <= len <= 15,
    ensures
        r@ == be_bytes(y as int, len as nat),
{
    let mut out: Vec<u8> = Vec::new();
    let mut i: usize = 0;
    while i < len
        invariant
            i <= len <= 15,
            out@.len() == i,
            forall|j: int| 0 <= j < i ==> out@[j] == be_bytes(y as int, len as nat)[j],
        decreases len - i,
    {
        let shift = pow2_u128((8 * (len - 1 - i)) as u32);
        proof {
            lemma_p2_mono(0, 8 * (len - 1 - i));
        }
        out.push(((y / shift) % 256) as u8);
        i = i + 1;
    }
    assert(out@ =~= be_bytes(y as int, len as nat));
    out
}

/// The big-endian unsigned integer held by `y`.
fn be_value_exec(y: &[u8]) -> (r: u128)
    requires
        y@.len() <= 15,
    ensures
        r == be_value(y@),
        r < p2(8 * (y@.len() as int)),
{
    let mut acc: u128 = 0;
    let mut i: usize = 0;
    proof {
        lemma_pow2_values();
    }
    while i < y.len()
        invariant
            i <= y@.len() <= 15,
            acc == be_value(y@.take(i as int)),
            acc < p2(8 * i),
        decreases y@.len() - i,
    {
        proof {
            assert(y@.take(i + 1).drop_last() =~= y@.take(i as int));
            lemma_p2_adds(8 * i, 8);
            lemma2_to_256();
            lemma_p2_mono(8 * i + 8, 120);
            lemma_pow2_values();
            assert(acc * 256 + y@[i as int] < p2(8 * i + 8)) by (nonlinear_arith)
                requires
                    acc < p2(8 * i),
                    y@[i as int] < 256,
                    p2(8 * i + 8) == p2(8 * i) * 256,
            ;
            lemma_p2_mono(120, 125);
        }
        acc = acc * 256 + y[i] as u128;
        i = i + 1;
    }
    assert(y@.take(y@.len() as int) =~= y@);
    acc
}

/// A big-endian integer of `n` bytes is below `2^(8n)`.
pub proof fn lemma_be_value_bound(s: Seq<u8>)
    ensures
        0 <= be_value(s) < p2(8 * (s.len() as int)),
    decreases s.len(),
{
    lemma_pow2_values();
    if s.len() > 0 {
        let d = s.drop_last();
        lemma_be_value_bound(d);
        lemma_p2_adds(8 * (d.len() as int), 8);
        lemma2_to_256();
        assert(be_value(d) * 256 + s.last() < p2(8 * (s.len() as int))) by (nonlinear_arith)
            requires
                0 <= be_value(d) < p2(8 * (d.len() as int)),
                s.last() < 256,
                p2(8 * (s.len() as int)) == p2(8 * (d.len() as int)) * 256,
                d.len() + 1 == s.len(),
        ;
    }
}

/// Reading back the big-endian bytes of `y` gives `y`.
pub proof fn lemma_be_round_trip(y: int, n: nat)
    requires
        0 <= y < p2(8 * (n as int)),
    ensures
        be_value(be_bytes(y, n)) == y,
    decreases n,
{
    lemma_pow2_values();
    lemma2_to_256();
    let b = be_bytes(y, n);
    if n == 0 {
        assert(b.len() == 0);
    } else {
        let m = (n - 1) as nat;
        lemma_p2_adds(8 * (m as int), 8);
        lemma_fundamental_div_mod(y, 256);
        lemma_mod_bound(y, 256);
        lemma_div_pos_is_pos(y, 256);
        assert(y / 256 < p2(8 * (m as int))) by (nonlinear_arith)
            requires
                y == 256 * (y / 256) + y % 256,
                0 <= y % 256,
                y < p2(8 * (m as int)) * 256,
        ;
        assert forall|i: int| 0 <= i < m implies #[trigger] b.drop_last()[i] == be_bytes(y / 256, m)[i] by {
            lemma_p2_mono(0, 8 * (m - 1 - i));
            lemma_p2_adds(8 * (m - 1 - i), 8);
            lemma_div_denominator(y, 256, p2(8 * (m - 1 - i)));
            assert(8 * (n - 1 - i) == 8 * (m - 1 - i) + 8);
            assert(256 * p2(8 * (m - 1 - i)) == p2(8 * (n - 1 - i)));
        }
        assert(b.drop_last() =~= be_bytes(y / 256, m));
        lemma_be_round_trip(y / 256, m);
        assert(b.last() == (y / p2(0)) % 256);
    }
}

proof fn lemma2_to_256()
    ensures
        p2(8) == 256,
{
    vstd::arithmetic::power2::lemma2_to64();
}

/// `|floor(m / 2^t)| <= |m|`.
proof fn lemma_div_floor_bound(m: int, t: int)
    requires
        t >= 0,
    ensures
        -(if m < 0 { -m } else { m }) <= shift_floor(m, -t) <= (if m < 0 { -m } else { m }),
{
    lemma_p2_mono(0, t);
    if t == 0 {
        lemma_pow2_values();
        assert(shift_floor(m, -t) == m * 1);
    } else {
        let p = p2(t);
        lemma_fundamental_div_mod(m, p);
        lemma_mod_bound(m, p);
        let q = m / p;
        assert(-(if m < 0 { -m } else { m }) <= q <= (if m < 0 { -m } else { m })) by (nonlinear_arith)
            requires
                m == p * q + m % p,
                0 <= m % p < p,
                p >= 1,
        ;
    }
}

/// `n <= 2^ceil(log2(n))`.
pub proof fn lemma_ceil_log2_bound(n: int)
    requires
        n >= 1,
    ensures
        ceil_log2(n) >= 0,
        n <= p2(ceil_log2(n)),
    decreases n,
{
    if n <= 1 {
        lemma_pow2_values();
    } else {
        let m = (n + 1) / 2;
        lemma_ceil_log2_bound(m);
        lemma_pow2_unfold((1 + ceil_log2(m)) as nat);
    }
}

/// Scaling to the finer of two exponents keeps their order.
proof fn lemma_floor_order(v: Dyadic, w: Dyadic, g: int)
    requires
        g <= w.exp,
    ensures
        compare(v, w) >= 0 ==> v.floor_scaled(-g) >= w.floor_scaled(-g),
        compare(v, w) <= 0 ==> v.floor_scaled(-g) <= w.floor_scaled(-g),
{
    let e = common_exp(v, w);
    let vv = v.floor_scaled(-e);
    let ww = w.floor_scaled(-e);
    if g <= e {
        lemma_refine(v.mant as int, v.exp - e, e - g);
        lemma_refine(w.mant as int, w.exp - e, e - g);
        lemma_p2_mono(0, e - g);
        if vv <= ww {
            lemma_mul_inequality(vv, ww, p2(e - g));
        }
        if ww <= vv {
            lemma_mul_inequality(ww, vv, p2(e - g));
        }
    } else {
        let wg = w.floor_scaled(-g);
        lemma_refine(w.mant as int, w.exp - g, g - e);
        lemma_shift_floor_of_exact(wg, g - e, g - e);
        lemma_pow2_values();
        assert(shift_floor(ww, -(g - e)) == wg);
        assert(vv == v.mant);
        assert(v.floor_scaled(-g) == shift_floor(vv, -(g - e)));
        if vv <= ww {
            lemma_shift_floor_mono(vv, ww, -(g - e));
        }
        if ww <= vv {
            lemma_shift_floor_mono(ww, vv, -(g - e));
        }
    }
}

/// A finite value inside the range maps to an integer in `[0, 2^d_pow]`,
/// and its scaled value lies between those of `min` and `max`.
pub proof fn lemma_mapped_bounds(c: ImapConfig, v: Dyadic)
    requires
        less(c.min, c.max),
        c.len >= 1,
        c == config_of(c.min, c.max, c.len),
        representable(c),
        !less(v, c.min),
        !less(c.max, v),
    ensures
        c.min_g <= v.floor_scaled(-c.g) <= c.max_g,
        0 <= mapped(c, v) <= p2(d_pow(c.len)),
{
    let e0 = common_exp(c.min, c.max);
    let t = grid_shift(c);
    let d = d_pow(c.len);
    let xg = v.floor_scaled(-c.g);
    lemma_floor_order(v, c.min, c.g);
    lemma_floor_order(v, c.max, c.g);
    // the range in units of 2^g is at most 2^(d + t)
    let n = range_units(c.min, c.max);
    let cl = ceil_log2(n);
    lemma_ceil_log2_bound(n);
    lemma_refine(c.min.mant as int, c.min.exp - e0, e0 - c.g);
    lemma_refine(c.max.mant as int, c.max.exp - e0, e0 - c.g);
    lemma_p2_mono(0, e0 - c.g);
    lemma_p2_adds(cl, e0 - c.g);
    assert(d + t == cl + (e0 - c.g));
    assert(c.max_g - c.min_g == n * p2(e0 - c.g)) by (nonlinear_arith)
        requires
            c.max_g == c.max.floor_scaled(-e0) * p2(e0 - c.g),
            c.min_g == c.min.floor_scaled(-e0) * p2(e0 - c.g),
            n == c.max.floor_scaled(-e0) - c.min.floor_scaled(-e0),
    ;
    lemma_mul_inequality(n, p2(cl), p2(e0 - c.g));
    assert(c.max_g - c.min_g <= p2(d + t));
    lemma_p2_adds(d, t);
    lemma_p2_mono(0, t);
    lemma_p2_mono(0, d);
    let p = p2(t);
    if t == 0 {
        lemma_pow2_values();
    }
    if c.straddle {
        lemma_shift_floor_mono(c.min_g, xg, -t);
        lemma_shift_floor_mono(xg, c.max_g, -t);
        if t > 0 {
            let a = c.max_g;
            let b = c.min_g;
            lemma_fundamental_div_mod(a, p);
            lemma_mod_bound(a, p);
            lemma_fundamental_div_mod(b, p);
            lemma_mod_bound(b, p);
            assert(a / p - b / p <= p2(d)) by (nonlinear_arith)
                requires
                    a == p * (a / p) + a % p,
                    b == p * (b / p) + b % p,
                    0 <= a % p < p,
                    0 <= b % p < p,
                    a - b <= p2(d) * p,
                    p2(d + t) == p2(d) * p,
                    p >= 1,
            ;
        }
    } else {
        lemma_shift_floor_mono(0, xg - c.min_g, -t);
        lemma_shift_floor_mono(xg - c.min_g, c.max_g - c.min_g, -t);
        lemma_shift_floor_mono(c.max_g - c.min_g, p2(d + t), -t);
        if t > 0 {
            lemma_div_multiples_vanish(p2(d), p);
            assert(p2(d + t) == p * p2(d)) by (nonlinear_arith)
                requires
                    p2(d + t) == p2(d) * p,
            ;
            lemma_div_pos_is_pos(0, p);
        }
    }
}

/// A mapping together with user-defined coders for the values inside its
/// range (`encoder`) and for the user-defined special value (`decoder`).
pub struct ImapWithCoders<E, D> {
    imapb: ImapB,
    encoder: Option<E>,
    decoder: Option<D>,
}

impl<E, D> ImapWithCoders<E, D> {
    pub closed spec fn wf(&self) -> bool {
        self.imapb.wf()
    }

    pub closed spec fn config(&self) -> ImapConfig {
        self.imapb@
    }

    pub closed spec fn encoder(&self) -> Option<E> {
        self.encoder
    }

    pub closed spec fn decoder(&self) -> Option<D> {
        self.decoder
    }

    /// The mapping without its coders.
    pub fn imapb(&self) -> (r: &ImapB)
        requires
            self.wf(),
        ensures
            r.wf(),
            r@ == self.config(),
    {
        &self.imapb
    }
}

impl<E: Fn(ImapFloat) -> Vec<u8>, D: Fn(&[u8]) -> ImapFloat> ImapWithCoders<E, D> {
    /// Maps a value; the user encoder, when there is one, maps the values
    /// inside the range.
    pub fn to_imap_with_encoder(&self, x: ImapFloat) -> (r: Result<Vec<u8>, ImapError>)
        requires
            self.wf(),
            self.encoder() matches Some(enc) ==> call_requires(enc, (x,)),
        ensures
            match self.encoder() {
                Some(enc) => in_range(self.config(), x) ==> (r matches Ok(b) && call_ensures(enc, (x,), b)),
                None => true,
            },
            !(self.encoder() is Some && in_range(self.config(), x)) ==> (r matches Ok(b) && b@ == encode(
                self.config(),
                x,
            )),
    {
        match &self.encoder {
            Some(enc) => self.imapb.to_imap_with_encoder(x, enc),
            None => self.imapb.to_imap(x),
        }
    }

    /// Maps bytes back to a value; the user decoder, when there is one,
    /// decodes the user-defined special value.
    pub fn from_imap(&self, y: &[u8]) -> (r: Result<ImapFloat, ImapError>)
        requires
            self.wf(),
            self.decoder() matches Some(dec) ==> call_requires(dec, (y,)),
        ensures
            match self.decoder() {
                Some(dec) => is_user_defined(self.config(), y@) ==> (r matches Ok(v) && call_ensures(dec, (y,), v)),
                None => true,
            },
            !(self.decoder() is Some && is_user_defined(self.config(), y@)) ==> r == decode(
                self.config(),
                y@,
                Err(ImapError::UserDefinedValue),
            ),
    {
        match &self.decoder {
            Some(dec) => self.imapb.from_imap_with_decoder(y, dec),
            None => self.imapb.from_imap(y),
        }
    }
}

impl ImapB {
    /// Creates the mapping of `[min, max]` onto `len` bytes with
    /// user-defined coders.
    pub fn new_with_user_defined_xcoders<E, D>(
        min: Dyadic,
        max: Dyadic,
        len: usize,
        user_enc: Option<E>,
        user_dec: Option<D>,
    ) -> (r: Result<ImapWithCoders<E, D>, ImapError>)
        ensures
            match imapb_result(min, max, len) {
                Ok(c) => r matches Ok(m) && m.wf() && m.config() == c && m.encoder() == user_enc && m.decoder()
                    == user_dec,
                Err(e) => r is Err && r->Err_0 == e,
            },
    {
        match ImapB::new(min, max, len) {
            Ok(imapb) => Ok(ImapWithCoders { imapb, encoder: user_enc, decoder: user_dec }),
            Err(e) => Err(e),
        }
    }
}

impl ImapA {
    /// Creates the mapping of `[min, max]` with the given precision and
    /// user-defined coders.
    pub fn new_with_user_defined_xcoders<E, D>(
        min: Dyadic,
        max: Dyadic,
        precision: Dyadic,
        user_enc: Option<E>,
        user_dec: Option<D>,
    ) -> (r: Result<ImapWithCoders<E, D>, ImapError>)
        ensures
            match imapa_result(min, max, precision) {
                Ok(c) => r matches Ok(m) && m.wf() && m.config() == c && m.encoder() == user_enc && m.decoder()
                    == user_dec,
                Err(e) => r is Err && r->Err_0 == e,
            },
    {
        match ImapA::new(min, max, precision) {
            Ok(a) => Ok(ImapWithCoders { imapb: a.imapb, encoder: user_enc, decoder: user_dec }),
            Err(e) => Err(e),
        }
    }
}

/// `floor(log2(precision))`.
pub open spec fn precision_pow(precision: Dyadic) -> int {
    floor_log2(precision.mant as int) + precision.exp
}

/// `max - min`, exactly, at the common exponent of `min` and `max`.
pub open spec fn range_of(min: Dyadic, max: Dyadic) -> Dyadic {
    Dyadic { mant: range_units(min, max) as i128, exp: common_exp(min, max) as i32 }
}

/// The length in bytes that a precision needs:
/// `ceil((ceil(log2(max - min)) - floor(log2(precision)) + 1) / 8)`.
pub open spec fn imapa_len(min: Dyadic, max: Dyadic, precision: Dyadic) -> int {
    let lbits = b_pow(min, max) - precision_pow(precision) + 1;
    if lbits < 1 {
        0
    } else if lbits > 128 {
        16
    } else {
        (lbits + 7) / 8
    }
}

/// `precision < max - min`, exactly: compared as integers at the smallest
/// of the three exponents.
pub open spec fn below_range(precision: Dyadic, min: Dyadic, max: Dyadic) -> bool {
    let e0 = common_exp(min, max);
    let z = if precision.exp <= e0 { precision.exp as int } else { e0 };
    precision.floor_scaled(-z) < max.floor_scaled(-z) - min.floor_scaled(-z)
}

/// The range of `min` and `max` lies within the working bound.
pub open spec fn range_fits(min: Dyadic, max: Dyadic) -> bool {
    let e = common_exp(min, max);
    in_bound(min.floor_scaled(-e)) && in_bound(max.floor_scaled(-e))
}

/// A mantissa below `2^62` in magnitude, as every `f32` and `f64` value has.
pub open spec fn narrow(x: Dyadic) -> bool {
    -p2(62) < x.mant < p2(62)
}

/// What construction from `min`, `max` and `precision` gives: the invalid
/// arguments error unless `min < max` and `0 < precision < max - min`,
/// then the errors of the mapping itself. Whether `precision < max - min`
/// is decided exactly when the range lies within the working bound or the
/// three mantissas are narrow; otherwise construction stops at `InitError`.
pub open spec fn imapa_result(min: Dyadic, max: Dyadic, precision: Dyadic) -> Result<ImapConfig, ImapError> {
    let bad = ImapError::InvalidInputArgs { min, max, len: None, precision: Some(precision) };
    if !less(min, max) || precision.mant <= 0 {
        Err(bad)
    } else if !(range_fits(min, max) || (narrow(min) && narrow(max) && narrow(precision))) {
        Err(ImapError::InitError)
    } else if !below_range(precision, min, max) {
        Err(bad)
    } else if !range_fits(min, max) {
        Err(ImapError::InitError)
    } else {
        imapb_result(min, max, imapa_len(min, max, precision) as usize)
    }
}

/// Floating Point to Integer Mapping, starting point A: from a range and a
/// precision; the length is the least that reaches the precision.
#[derive(Clone, Copy, Debug)]
pub struct ImapA {
    imapb: ImapB,
}

impl View for ImapA {
    type V = ImapConfig;

    closed spec fn view(&self) -> ImapConfig {
        self.imapb@
    }
}

impl ImapA {
    pub closed spec fn wf(&self) -> bool {
        self.imapb.wf()
    }

    /// Creates the mapping of `[min, max]` with the given precision.
    pub fn new(min: Dyadic, max: Dyadic, precision: Dyadic) -> (r: Result<ImapA, ImapError>)
        ensures
            match imapa_result(min, max, precision) {
                Ok(c) => r matches Ok(a) && a@ == c && a.wf(),
                Err(e) => r == Err::<ImapA, ImapError>(e),
            },
    {
        let bad = ImapError::InvalidInputArgs { min, max, len: None, precision: Some(precision) };
        if compare_exec(min, max) != -1 || precision.mant <= 0 {
            return Err(bad);
        }
        let fits = range_fits_exec(min, max);
        let narrow3 = is_narrow(min) && is_narrow(max) && is_narrow(precision);
        if !fits && !narrow3 {
            return Err(ImapError::InitError);
        }
        if !below_range_exec(precision, min, max, fits) {
            return Err(bad);
        }
        if !fits {
            return Err(ImapError::InitError);
        }
        let e0: i64 = if min.exp <= max.exp { min.exp as i64 } else { max.exp as i64 };
        let lo = match bounded_at(min, e0) {
            Some(v) => v,
            None => {
                return Err(ImapError::InitError);
            },
        };
        let hi = match bounded_at(max, e0) {
            Some(v) => v,
            None => {
                return Err(ImapError::InitError);
            },
        };
        proof {
            lemma_pow2_values();
        }
        let units: i128 = hi - lo;
        let len = Self::len(e0, units, precision);
        match ImapB::new(min, max, len) {
            Ok(b) => Ok(ImapA { imapb: b }),
            Err(e) => Err(e),
        }
    }

    /// The length in bytes for a range of `units * 2^e0` and a precision.
    fn len(e0: i64, units: i128, precision: Dyadic) -> (r: usize)
        requires
            1 <= units,
            precision.mant >= 1,
            i32::MIN <= e0 <= i32::MAX,
        ensures
            r == ({
                let lbits = e0 + ceil_log2(units as int) - (floor_log2(precision.mant as int) + precision.exp) + 1;
                if lbits < 1 { 0 } else if lbits > 128 { 16 } else { (lbits + 7) / 8 }
            }),
    {
        let cl = ceil_log2_exec(units as u128);
        let fl = floor_log2_exec(precision.mant as u128);
        let lbits: i64 = e0 + cl as i64 - (fl as i64 + precision.exp as i64) + 1;
        if lbits < 1 {
            0
        } else if lbits > 128 {
            16
        } else {
            ((lbits + 7) / 8) as usize
        }
    }

    /// Maps a value to bytes, as `ImapB::to_imap` does.
    pub fn to_imap(&self, x: ImapFloat) -> (r: Result<Vec<u8>, ImapError>)
        requires
            self.wf(),
        ensures
            r matches Ok(b) && b@ == encode(self@, x),
    {
        self.imapb.to_imap(x)
    }

    /// Maps bytes back to a value, as `ImapB::from_imap` does.
    pub fn from_imap(&self, y: &[u8]) -> (r: Result<ImapFloat, ImapError>)
        requires
            self.wf(),
        ensures
            r == decode(self@, y@, Err(ImapError::UserDefinedValue)),
    {
        self.imapb.from_imap(y)
    }
}

/// The leading byte of a mapped integer of at most `2^d_pow` does not mark
/// a special value.
proof fn lemma_normal_leading_byte(y: int, len: nat)
    requires
        len >= 1,
        0 <= y <= p2(d_pow(len)),
    ensures
        !is_special(be_bytes(y, len)),
        be_value(be_bytes(y, len)) == y,
{
    let sh = 8 * (len - 1);
    lemma_pow2_values();
    lemma2_to_256();
    lemma_p2_mono(0, sh);
    lemma_p2_adds(sh, 7);
    vstd::arithmetic::power2::lemma2_to64();
    assert(p2(7) == 128);
    assert(d_pow(len) == sh + 7);
    lemma_div_is_ordered(y, p2(sh) * 128, p2(sh));
    lemma_div_multiples_vanish(128, p2(sh));
    assert(p2(sh) * 128 == 128 * p2(sh)) by (nonlinear_arith);
    lemma_div_pos_is_pos(y, p2(sh));
    let b = y / p2(sh);
    assert(b % 256 == b);
    let lead = be_bytes(y, len)[0];
    assert(lead == b as u8);
    assert(lead <= 128);
    assert(lead <= 128 ==> lead & 0xC0u8 != 0xC0u8) by (bit_vector);
    vstd::arithmetic::power2::lemma_pow2_strictly_increases(d_pow(len) as nat, (8 * len) as nat);
    lemma_be_round_trip(y, len);
}

/// Decoding the encoding of a finite value `x` inside `[min, max]` gives
/// the grid point `v` at or below it: `v <= x < v + s_r`, where `v + s_r` is
/// what the next mapped integer decodes to.
pub proof fn lemma_round_trip(b: ImapB, x: Dyadic)
    requires
        b.wf(),
        !less(x, b@.min),
        !less(b@.max, x),
    ensures
        decode(b@, encode(b@, ImapFloat::Finite(x)), Err(ImapError::UserDefinedValue))
            == Ok::<ImapFloat, ImapError>(ImapFloat::Finite(decoded(b@, mapped(b@, x)))),
        !less(x, decoded(b@, mapped(b@, x))),
        less(x, decoded(b@, mapped(b@, x) + 1)),
{
    let c = b@;
    let y = mapped(c, x);
    let t = grid_shift(c);
    lemma_mapped_bounds(c, x);
    lemma_normal_leading_byte(y, c.len);
    lemma_pow2_values();
    lemma_p2_mono(0, t);
    lemma_p2_mono(d_pow(c.len), 124);
    lemma_p2_adds(d_pow(c.len), t);
    lemma_p2_adds(d_pow(c.len) + 1, t);
    lemma_p2_mono(d_pow(c.len) + 1 + t, 125);
    lemma_div_floor_bound(c.min_g, t);
    let xg = x.floor_scaled(-c.g);
    let v = decoded(c, y);
    let w = decoded(c, y + 1);
    lemma_mapped_bounds(c, x);
    lemma_div_floor_bound(xg, t);
    lemma_pow2_unfold((d_pow(c.len) + 1) as nat);
    if c.straddle {
        lemma_floor_floor(x.mant as int, x.exp - c.g, t);
        lemma_shift_floor_down(c.min_g, t);
        lemma_shift_floor_down(xg, t);
        assert(decoded_mant(c, y) == shift_floor(xg, -t));
        assert(v.mant == x.floor_scaled(c.k));
        assert(w.mant == x.floor_scaled(c.k) + 1);
    } else {
        let p = p2(t);
        let dd = xg - c.min_g;
        lemma_shift_floor_down(dd, t);
        lemma_fundamental_div_mod(dd, p);
        lemma_mod_bound(dd, p);
        assert(y * p + c.min_g <= xg < (y + 1) * p + c.min_g) by (nonlinear_arith)
            requires
                dd == p * y + dd % p,
                0 <= dd % p < p,
                dd == xg - c.min_g,
        ;
        assert(0 <= y * p && (y + 1) * p <= p2(d_pow(c.len) + 1) * p) by (nonlinear_arith)
            requires
                0 <= y <= p2(d_pow(c.len)),
                p2(d_pow(c.len) + 1) == 2 * p2(d_pow(c.len)),
                p2(d_pow(c.len)) >= 1,
                p >= 1,
        ;
        assert(v.mant == c.min_g + y * p);
        assert(w.mant == c.min_g + (y + 1) * p);
    }
    lemma_compare_floor(v, x);
    lemma_compare_floor(w, x);
}

/// Along the grid, decoded values are ordered as the mapped integers are.
proof fn lemma_decoded_order(b: ImapB, i: int, j: int)
    requires
        b.wf(),
        0 <= i <= p2(d_pow(b@.len)) + 1,
        0 <= j <= p2(d_pow(b@.len)) + 1,
    ensures
        less(decoded(b@, i), decoded(b@, j)) == (i < j),
{
    let c = b@;
    let t = grid_shift(c);
    let d = d_pow(c.len);
    lemma_pow2_values();
    lemma_p2_mono(0, t);
    lemma_p2_mono(d, 124);
    lemma_pow2_unfold((d + 1) as nat);
    lemma_p2_adds(d + 1, t);
    lemma_p2_mono(d + 1 + t, 125);
    lemma_div_floor_bound(c.min_g, t);
    let p = p2(t);
    if !c.straddle {
        assert(0 <= i * p <= p2(d + 1) * p && 0 <= j * p <= p2(d + 1) * p) by (nonlinear_arith)
            requires
                0 <= i <= p2(d) + 1,
                0 <= j <= p2(d) + 1,
                p2(d + 1) == 2 * p2(d),
                p2(d) >= 1,
                p >= 1,
        ;
        assert((i < j) == (i * p < j * p)) by (nonlinear_arith)
            requires
                p >= 1,
        ;
    }
    assert(in_bound(c.min_g));
    assert(i32::MIN <= decoded_exp(c) <= i32::MAX);
    lemma_pow2_unfold(125);
    assert(p2(125) == 2 * p2(124));
    if c.straddle {
        assert(-p2(126) <= decoded_mant(c, i) <= p2(126));
        assert(-p2(126) <= decoded_mant(c, j) <= p2(126));
    } else {
        assert(i * p <= p2(125) && j * p <= p2(125));
        assert(-p2(126) <= decoded_mant(c, i) <= p2(126));
        assert(-p2(126) <= decoded_mant(c, j) <= p2(126));
    }
    let x = decoded(c, i);
    let y = decoded(c, j);
    assert(x.mant == decoded_mant(c, i));
    assert(y.mant == decoded_mant(c, j));
    assert(x.exp == y.exp);
    assert(x.mant * p2(0) == x.mant && y.mant * p2(0) == y.mant) by (nonlinear_arith)
        requires
            p2(0) == 1,
    ;
    assert(x.floor_scaled(-common_exp(x, y)) == x.mant);
    assert(y.floor_scaled(-common_exp(x, y)) == y.mant);
}

/// A value on the grid of the mapping comes back exactly: when `x` is what
/// some mapped integer `n` decodes to and lies inside `[min, max]`,
/// decoding the encoding of `x` gives `x` itself.
pub proof fn lemma_grid_round_trip(b: ImapB, n: int)
    requires
        b.wf(),
        0 <= n <= p2(d_pow(b@.len)),
        !less(decoded(b@, n), b@.min),
        !less(b@.max, decoded(b@, n)),
    ensures
        decode(b@, encode(b@, ImapFloat::Finite(decoded(b@, n))), Err(ImapError::UserDefinedValue))
            == Ok::<ImapFloat, ImapError>(ImapFloat::Finite(decoded(b@, n))),
{
    let c = b@;
    let x = decoded(c, n);
    let y = mapped(c, x);
    lemma_round_trip(b, x);
    lemma_mapped_bounds(c, x);
    lemma_decoded_order(b, n, y);
    lemma_decoded_order(b, n, y + 1);
}

/// NaN and the infinities come back from their encodings: an infinity with
/// its sign, a NaN as a NaN (a positive one with its sign).
pub proof fn lemma_special_round_trip(b: ImapB, negative: bool)
    requires
        b.wf(),
    ensures
        decode(b@, encode(b@, ImapFloat::Infinite { negative }), Err(ImapError::UserDefinedValue))
            == Ok::<ImapFloat, ImapError>(ImapFloat::Infinite { negative }),
        decode(b@, encode(b@, ImapFloat::NaN { negative: false }), Err(ImapError::UserDefinedValue))
            == Ok::<ImapFloat, ImapError>(ImapFloat::NaN { negative: false }),
        decode(b@, encode(b@, ImapFloat::NaN { negative }), Err(ImapError::UserDefinedValue)) matches Ok(ImapFloat::NaN { .. }),
{
    let len = b@.len;
    let inf = encode(b@, ImapFloat::Infinite { negative });
    let nan = encode(b@, ImapFloat::NaN { negative });
    let pnan = encode(b@, ImapFloat::NaN { negative: false });
    assert(trailing_zero(inf));
    assert(trailing_zero(nan));
    assert(trailing_zero(pnan));
    assert(0xC8u8 & 0xC0u8 == 0xC0u8 && 0xC8u8 & 0xF8u8 == 0xC8u8) by (bit_vector);
    assert(0xE8u8 & 0xC0u8 == 0xC0u8 && 0xE8u8 & 0xF8u8 == 0xE8u8) by (bit_vector);
    assert(0xD0u8 & 0xC0u8 == 0xC0u8 && 0xD0u8 & 0xF8u8 == 0xD0u8 && 0xD0u8 & 0xD0u8 == 0xD0u8) by (bit_vector);
    assert(0xF0u8 & 0xC0u8 == 0xC0u8 && 0xF0u8 & 0xF8u8 == 0xF0u8 && 0xF0u8 & 0xD0u8 == 0xD0u8) by (bit_vector);
}

/// A finite value below `min` encodes to the below-minimum special value,
/// which decodes to `BelowMinimum`; symmetrically above `max`.
pub proof fn lemma_out_of_range(b: ImapB, x: Dyadic)
    requires
        b.wf(),
    ensures
        less(x, b@.min) ==> encode(b@, ImapFloat::Finite(x)) == special_bytes(SpecialValue::ImapBelowMinimum, b@.len)
            && decode(b@, encode(b@, ImapFloat::Finite(x)), Err(ImapError::UserDefinedValue))
                == Err::<ImapFloat, ImapError>(ImapError::BelowMinimum),
        less(b@.max, x) && !less(x, b@.min) ==> encode(b@, ImapFloat::Finite(x)) == special_bytes(SpecialValue::ImapAboveMaximum, b@.len)
            && decode(b@, encode(b@, ImapFloat::Finite(x)), Err(ImapError::UserDefinedValue))
                == Err::<ImapFloat, ImapError>(ImapError::AboveMaximum),
{
    let lo = special_bytes(SpecialValue::ImapBelowMinimum, b@.len);
    let hi = special_bytes(SpecialValue::ImapAboveMaximum, b@.len);
    assert(trailing_zero(lo));
    assert(trailing_zero(hi));
    assert(0xE0u8 & 0xC0u8 == 0xC0u8) by (bit_vector);
    assert(0xE1u8 & 0xC0u8 == 0xC0u8) by (bit_vector);
}

/// `min` and `max` themselves map to normal values, which decode.
pub proof fn lemma_bounds_are_normal(b: ImapB)
    requires
        b.wf(),
    ensures
        !is_special(encode(b@, ImapFloat::Finite(b@.min))),
        !is_special(encode(b@, ImapFloat::Finite(b@.max))),
        decode(b@, encode(b@, ImapFloat::Finite(b@.min)), Err(ImapError::UserDefinedValue)) matches Ok(ImapFloat::Finite(_)),
        decode(b@, encode(b@, ImapFloat::Finite(b@.max)), Err(ImapError::UserDefinedValue)) matches Ok(ImapFloat::Finite(_)),
{
    let c = b@;
    assert(!less(c.min, c.min));
    assert(!less(c.max, c.max));
    assert(!less(c.max, c.min));
    lemma_round_trip(b, c.min);
    lemma_round_trip(b, c.max);
    lemma_mapped_bounds(c, c.min);
    lemma_mapped_bounds(c, c.max);
    lemma_normal_leading_byte(mapped(c, c.min), c.len);
    lemma_normal_leading_byte(mapped(c, c.max), c.len);
}

fn is_narrow(x: Dyadic) -> (r: bool)
    ensures
        r == narrow(x),
{
    proof {
        lemma_pow2_values();
        lemma_p2_adds(31, 31);
        lemma2_to64();
    }
    -0x4000_0000_0000_0000 < x.mant && x.mant < 0x4000_0000_0000_0000
}

fn range_fits_exec(min: Dyadic, max: Dyadic) -> (r: bool)
    ensures
        r == range_fits(min, max),
{
    let e0: i64 = if min.exp <= max.exp { min.exp as i64 } else { max.exp as i64 };
    bounded_at(min, e0).is_some() && bounded_at(max, e0).is_some()
}

/// Whether `precision < max - min`, exactly.
fn below_range_exec(precision: Dyadic, min: Dyadic, max: Dyadic, fits: bool) -> (r: bool)
    requires
        less(min, max),
        precision.mant > 0,
        fits == range_fits(min, max),
        fits || (narrow(min) && narrow(max) && narrow(precision)),
    ensures
        r == below_range(precision, min, max),
{
    let ghost e0i = common_exp(min, max);
    let ghost z = if precision.exp <= e0i { precision.exp as int } else { e0i };
    let e0: i64 = if min.exp <= max.exp { min.exp as i64 } else { max.exp as i64 };
    proof {
        lemma_pow2_values();
        lemma_p2_adds(31, 31);
        lemma2_to64();
        lemma_refine(min.mant as int, min.exp - e0i, e0i - z);
        lemma_refine(max.mant as int, max.exp - e0i, e0i - z);
        lemma_p2_mono(0, e0i - z);
    }
    if fits {
        let lo = bounded_at(min, e0).unwrap();
        let hi = bounded_at(max, e0).unwrap();
        let d = Dyadic { mant: hi - lo, exp: e0 as i32 };
        proof {
            lemma_compare_at(precision, d, z);
            lemma_refine(d.mant as int, 0, e0i - z);
            assert(d.floor_scaled(-z) == max.floor_scaled(-z) - min.floor_scaled(-z)) by (nonlinear_arith)
                requires
                    d.floor_scaled(-z) == (hi - lo) * p2(e0i - z),
                    max.floor_scaled(-z) == hi * p2(e0i - z),
                    min.floor_scaled(-z) == lo * p2(e0i - z),
            ;
        }
        return compare_exec(precision, d) == -1;
    }
    // the coarse term `h` at exponent `eh` and the fine term `l` at `e0`,
    // each with the sign it has in `max - min`
    let coarse_is_max = max.exp >= min.exp;
    let hm: i128 = if coarse_is_max { max.mant } else { -min.mant };
    let lm: i128 = if coarse_is_max { -min.mant } else { max.mant };
    let eh: i64 = if coarse_is_max { max.exp as i64 } else { min.exp as i64 };
    let g: i64 = eh - e0;
    let ghost hv = hm * p2(eh - z);
    let ghost lv = lm * p2(e0 - z);
    let ghost pv = precision.floor_scaled(-z);
    proof {
        lemma_p2_mono(0, eh - z);
        assert(max.floor_scaled(-z) == max.mant * p2(max.exp - z));
        assert(min.floor_scaled(-z) == min.mant * p2(min.exp - z));
        if coarse_is_max {
            assert(lv == -(min.mant * p2(e0 - z))) by (nonlinear_arith)
                requires
                    lv == lm * p2(e0 - z),
                    lm == -min.mant,
            ;
        } else {
            assert(hv == -(min.mant * p2(eh - z))) by (nonlinear_arith)
                requires
                    hv == hm * p2(eh - z),
                    hm == -min.mant,
            ;
        }
        assert(max.floor_scaled(-z) - min.floor_scaled(-z) == hv + lv);
        assert(pv == precision.mant * p2(precision.exp - z));
    }
    let lx = Dyadic { mant: lm, exp: e0 as i32 };
    proof {
        lemma_refine(lm as int, 0, e0 - z);
    }
    if g <= 62 {
        proof {
            lemma_p2_mono(g as int, 62);
            lemma_p2_adds(62, 62);
        }
        let step = pow2_u128(g as u32) as i128;
        proof {
            assert(-p2(124) < hm * step < p2(124)) by (nonlinear_arith)
                requires
                    -p2(62) < hm < p2(62),
                    1 <= step <= p2(62),
                    p2(124) == p2(62) * p2(62),
            ;
            lemma_p2_adds(62, 62);
            lemma_p2_adds(64, 60);
            lemma_p2_mono(124, 125);
        }
        let d = Dyadic { mant: hm * step + lm, exp: e0 as i32 };
        proof {
            lemma_compare_at(precision, d, z);
            lemma_refine(d.mant as int, 0, e0 - z);
            lemma_p2_adds(g as int, e0 - z);
            assert(d.floor_scaled(-z) == hv + lv) by (nonlinear_arith)
                requires
                    d.floor_scaled(-z) == (hm * step + lm) * p2(e0 - z),
                    hv == hm * p2(eh - z),
                    lv == lm * p2(e0 - z),
                    p2(eh - z) == step * p2(e0 - z),
            ;
        }
        return compare_exec(precision, d) == -1;
    }
    if hm == 0 {
        proof {
            lemma_compare_at(precision, lx, z);
            assert(hv == 0) by (nonlinear_arith)
                requires
                    hv == hm * p2(eh - z),
                    hm == 0,
            ;
            assert(lx.floor_scaled(-z) == lv);
        }
        return compare_exec(precision, lx) == -1;
    }
    let pe: i64 = precision.exp as i64;
    if pe >= eh {
        let s: i64 = pe - eh;
        if s >= 63 {
            proof {
                lemma_p2_adds(s as int, eh - z);
                lemma_p2_adds(63, eh - z);
                lemma_p2_mono(63, s as int);
                lemma_p2_adds(62, eh - z);
                lemma_p2_mono(e0 - z, eh - z);
                lemma_p2_adds(62, 1);
                assert(pv >= hv + lv) by (nonlinear_arith)
                    requires
                        pv == precision.mant * p2(precision.exp - z),
                        precision.mant >= 1,
                        p2(precision.exp - z) == p2(s as int) * p2(eh - z),
                        p2(s as int) >= p2(63),
                        p2(63) == 2 * p2(62),
                        hv == hm * p2(eh - z),
                        lv == lm * p2(e0 - z),
                        -p2(62) < hm < p2(62),
                        -p2(62) < lm < p2(62),
                        0 < p2(e0 - z) <= p2(eh - z),
                ;
            }
            return false;
        }
        proof {
            lemma_p2_mono(s as int, 62);
            lemma_p2_adds(62, 62);
        }
        let step = pow2_u128(s as u32) as i128;
        proof {
            lemma_p2_adds(62, 62);
            lemma_p2_adds(64, 60);
            assert(0 < precision.mant * step < p2(124)) by (nonlinear_arith)
                requires
                    0 < precision.mant < p2(62),
                    1 <= step <= p2(62),
                    p2(124) == p2(62) * p2(62),
            ;
        }
        let q = Dyadic { mant: precision.mant * step - hm, exp: eh as i32 };
        proof {
            lemma_compare_at(q, lx, z);
            lemma_refine(q.mant as int, 0, eh - z);
            lemma_p2_adds(s as int, eh - z);
            assert(q.floor_scaled(-z) == pv - hv) by (nonlinear_arith)
                requires
                    q.floor_scaled(-z) == (precision.mant * step - hm) * p2(eh - z),
                    pv == precision.mant * p2(precision.exp - z),
                    p2(precision.exp - z) == step * p2(eh - z),
                    hv == hm * p2(eh - z),
            ;
        }
        compare_exec(q, lx) == -1
    } else {
        let s: i64 = eh - pe;
        if s >= 63 {
            proof {
                lemma_p2_adds(s as int, precision.exp - z);
                lemma_p2_mono(63, s as int);
                lemma_p2_adds(63, precision.exp - z);
                lemma_p2_adds(62, 1);
                lemma_p2_adds(g as int, e0 - z);
                lemma_p2_mono(63, g as int);
                lemma_p2_adds(63, e0 - z);
                lemma_p2_mono(0, precision.exp - z);
                let u = p2(eh - z);
                let w = p2(e0 - z);
                let v = p2(precision.exp - z);
                lemma_p2_mono(0, e0 - z);
                assert(u >= p2(63) * v) by (nonlinear_arith)
                    requires
                        u == p2(s as int) * v,
                        p2(s as int) >= p2(63),
                        v >= 1,
                ;
                assert(u >= p2(63) * w) by (nonlinear_arith)
                    requires
                        u == p2(g as int) * w,
                        p2(g as int) >= p2(63),
                        w >= 1,
                ;
                assert(hv + lv > 0) by {
                    assert(less(min, max));
                    lemma_compare_at(min, max, z);
                }
                assert(pv < hv + lv) by (nonlinear_arith)
                    requires
                        pv == precision.mant * v,
                        precision.mant < p2(62),
                        v >= 1,
                        u >= p2(63) * v,
                        u >= p2(63) * w,
                        w >= 1,
                        hv == hm * u,
                        lv == lm * w,
                        hm != 0,
                        -p2(62) < lm < p2(62),
                        hv + lv > 0,
                        p2(63) == 2 * p2(62),
                ;
            }
            return true;
        }
        proof {
            lemma_p2_mono(s as int, 62);
            lemma_p2_adds(62, 62);
        }
        let step = pow2_u128(s as u32) as i128;
        proof {
            lemma_p2_adds(62, 62);
            lemma_p2_adds(64, 60);
            assert(-p2(124) < hm * step < p2(124)) by (nonlinear_arith)
                requires
                    -p2(62) < hm < p2(62),
                    1 <= step <= p2(62),
                    p2(124) == p2(62) * p2(62),
            ;
        }
        let q = Dyadic { mant: precision.mant - hm * step, exp: precision.exp };
        proof {
            lemma_compare_at(q, lx, z);
            lemma_refine(q.mant as int, 0, precision.exp - z);
            lemma_p2_adds(s as int, precision.exp - z);
            assert(q.floor_scaled(-z) == pv - hv) by (nonlinear_arith)
                requires
                    q.floor_scaled(-z) == (precision.mant - hm * step) * p2(precision.exp - z),
                    pv == precision.mant * p2(precision.exp - z),
                    p2(eh - z) == step * p2(precision.exp - z),
                    hv == hm * p2(eh - z),
            ;
        }
        compare_exec(q, lx) == -1
    }
}

/// `v` in units of `2^e` when `e <= v.exp` and the result lies within the
/// working bound.
fn bounded_at(v: Dyadic, e: i64) -> (r: Option<i128>)
    requires
        e <= v.exp,
        i32::MIN <= e,
    ensures
        match r {
            Some(x) => x == v.floor_scaled(-e) && in_bound(x as int),
            None => !in_bound(v.floor_scaled(-e)),
        },
{
    proof {
        lemma_pow2_values();
    }
    match shl_checked(v.mant, (v.exp as i64 - e) as u64) {
        Some(x) => {
            if x > 0x2000_0000_0000_0000_0000_0000_0000_0000 || x < -0x2000_0000_0000_0000_0000_0000_0000_0000 {
                None
            } else {
                Some(x)
            }
        },
        None => None,
    }
}

/// A number out of bounds at an exponent stays out of bounds at a finer one.
proof fn lemma_unbounded_finer(v: Dyadic, e: int, g: int)
    requires
        g <= e <= v.exp,
        !in_bound(v.floor_scaled(-e)),
    ensures
        !in_bound(v.floor_scaled(-g)),
{
    lemma_refine(v.mant as int, v.exp - e, e - g);
    lemma_p2_mono(0, e - g);
    let a = v.floor_scaled(-e);
    let f = p2(e - g);
    if a > 0 {
        lemma_mul_inequality(1, f, a);
    } else {
        lemma_mul_inequality(1, f, -a);
        assert(a * f == -((-a) * f)) by (nonlinear_arith);
    }
}

} // verus!
