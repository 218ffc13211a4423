//! The special values of the integer mapping: sentinel tags that occupy the
//! most significant byte of a mapped integer.
use vstd::prelude::*;
use crate::imap::ImapError;

verus! {

/// A sentinel carried in the most significant byte of an IMAP value.
///
/// Bit 7 is always set, bit 6 marks a special value, bit 5 the sign and
/// bit 4 a NaN; the remaining bits depend on the kind.
#[derive(Clone, Copy, Debug, PartialEq, Eq, Structural)]
pub enum SpecialValue {
    PosInfinity,
    NegInfinity,
    PosQuietNan,
    NegQuietNan,
    PosSignalNan,
    NegSignalNan,
    UserDefined,
    ReservedSpecial,
    ImapBelowMinimum,
    ImapAboveMaximum,
    ReservedMisbDefined,
}

/// The tag byte of each special value.
pub open spec fn tag_of(v: SpecialValue) -> u8 {
    match v {
        SpecialValue::PosInfinity => 0xC8u8,
        SpecialValue::NegInfinity => 0xE8u8,
        SpecialValue::PosQuietNan => 0xD0u8,
        SpecialValue::NegQuietNan => 0xF0u8,
        SpecialValue::PosSignalNan => 0xD8u8,
        SpecialValue::NegSignalNan => 0xF8u8,
        SpecialValue::UserDefined => 0xC0u8,
        SpecialValue::ReservedSpecial => 0xA0u8,
        SpecialValue::ImapBelowMinimum => 0xE0u8,
        SpecialValue::ImapAboveMaximum => 0xE1u8,
        SpecialValue::ReservedMisbDefined => 0xE2u8,
    }
}

/// The special value whose tag is exactly `b`, if any.
pub open spec fn from_tag(b: u8) -> Option<SpecialValue> {
    if b == 0xC8u8 {
        Some(SpecialValue::PosInfinity)
    } else if b == 0xE8u8 {
        Some(SpecialValue::NegInfinity)
    } else if b == 0xD0u8 {
        Some(SpecialValue::PosQuietNan)
    } else if b == 0xF0u8 {
        Some(SpecialValue::NegQuietNan)
    } else if b == 0xD8u8 {
        Some(SpecialValue::PosSignalNan)
    } else if b == 0xF8u8 {
        Some(SpecialValue::NegSignalNan)
    } else if b == 0xC0u8 {
        Some(SpecialValue::UserDefined)
    } else if b == 0xA0u8 {
        Some(SpecialValue::ReservedSpecial)
    } else if b == 0xE0u8 {
        Some(SpecialValue::ImapBelowMinimum)
    } else if b == 0xE1u8 {
        Some(SpecialValue::ImapAboveMaximum)
    } else if b == 0xE2u8 {
        Some(SpecialValue::ReservedMisbDefined)
    } else {
        None
    }
}

/// `len` bytes: the tag of `v` followed by zeros.
pub open spec fn special_bytes(v: SpecialValue, len: nat) -> Seq<u8> {
    Seq::new(len, |i: int| if i == 0 { tag_of(v) } else { 0u8 })
}

/// Every byte after the first is zero.
pub open spec fn trailing_zero(y: Seq<u8>) -> bool {
    forall|i: int| 1 <= i < y.len() ==> y[i] == 0
}

/// Whether the leading byte `b` carries every bit of `mask`.
pub open spec fn has_bits(b: u8, mask: u8) -> bool {
    b & mask == mask
}

/// Classification of a non-empty IMAP value as a special value, tested in
/// a fixed order of precedence.
pub open spec fn classify(y: Seq<u8>) -> Option<SpecialValue> {
    let b = y[0];
    let z = trailing_zero(y);
    if (b == 0xE0u8 || b == 0xE1u8) && z {
        from_tag(b)
    } else if (b & 0xF8u8 == 0xC8u8 || b & 0xF8u8 == 0xE8u8) && z {
        from_tag(b & 0xF8u8)
    } else if b & 0xF8u8 == 0xC0u8 {
        Some(SpecialValue::UserDefined)
    } else if has_bits(b, 0xD0u8) {
        Some(SpecialValue::PosQuietNan)
    } else if has_bits(b, 0xF0u8) {
        Some(SpecialValue::NegQuietNan)
    } else if has_bits(b, 0xD8u8) {
        Some(SpecialValue::PosSignalNan)
    } else if has_bits(b, 0xF8u8) {
        Some(SpecialValue::NegSignalNan)
    } else if b & 0xC0u8 == 0x80u8 && (b & 0x3Fu8 != 0 || !z) {
        Some(SpecialValue::ReservedSpecial)
    } else if b & 0xF8u8 == 0xE0u8 && b & 0x06u8 != 0 && z {
        Some(SpecialValue::ReservedMisbDefined)
    } else {
        None
    }
}

impl SpecialValue {
    /// The tag byte of this special value.
    pub fn value(&self) -> (r: u8)
        ensures
            r == tag_of(*self),
    {
        match self {
            SpecialValue::PosInfinity => 0xC8u8,
            SpecialValue::NegInfinity => 0xE8u8,
            SpecialValue::PosQuietNan => 0xD0u8,
            SpecialValue::NegQuietNan => 0xF0u8,
            SpecialValue::PosSignalNan => 0xD8u8,
            SpecialValue::NegSignalNan => 0xF8u8,
            SpecialValue::UserDefined => 0xC0u8,
            SpecialValue::ReservedSpecial => 0xA0u8,
            SpecialValue::ImapBelowMinimum => 0xE0u8,
            SpecialValue::ImapAboveMaximum => 0xE1u8,
            SpecialValue::ReservedMisbDefined => 0xE2u8,
        }
    }

    /// The special value whose tag is exactly `b`.
    pub fn try_from_tag(b: u8) -> (r: Option<SpecialValue>)
        ensures
            r == from_tag(b),
    {
        if b == 0xC8u8 {
            Some(SpecialValue::PosInfinity)
        } else if b == 0xE8u8 {
            Some(SpecialValue::NegInfinity)
        } else if b == 0xD0u8 {
            Some(SpecialValue::PosQuietNan)
        } else if b == 0xF0u8 {
            Some(SpecialValue::NegQuietNan)
        } else if b == 0xD8u8 {
            Some(SpecialValue::PosSignalNan)
        } else if b == 0xF8u8 {
            Some(SpecialValue::NegSignalNan)
        } else if b == 0xC0u8 {
            Some(SpecialValue::UserDefined)
        } else if b == 0xA0u8 {
            Some(SpecialValue::ReservedSpecial)
        } else if b == 0xE0u8 {
            Some(SpecialValue::ImapBelowMinimum)
        } else if b == 0xE1u8 {
            Some(SpecialValue::ImapAboveMaximum)
        } else if b == 0xE2u8 {
            Some(SpecialValue::ReservedMisbDefined)
        } else {
            None
        }
    }

    /// The `len`-byte IMAP encoding of this special value: its tag, then zeros.
    pub fn to_imap(&self, len: &usize) -> (r: Vec<u8>)
        requires
            *len >= 1,
        ensures
            r@ == special_bytes(*self, *len as nat),
    {
        let mut bytes: Vec<u8> = Vec::new();
        bytes.push(self.value());
        let mut i: usize = 1;
        while i < *len
            invariant
                1 <= i <= *len,
                bytes@.len() == i,
                bytes@[0] == tag_of(*self),
                forall|j: int| 1 <= j < i ==> bytes@[j] == 0u8,
            decreases *len - i,
        {
            bytes.push(0u8);
            i = i + 1;
        }
        assert(bytes@ =~= special_bytes(*self, *len as nat));
        bytes
    }

    /// Classifies a non-empty IMAP value as a special value.
    pub fn from_imap(y: &[u8]) -> (r: Result<SpecialValue, ImapError>)
        requires
            y@.len() >= 1,
        ensures
            match classify(y@) {
                Some(s) => r == Ok::<SpecialValue, ImapError>(s),
                None => r == Err::<SpecialValue, ImapError>(ImapError::CannotParseSpecialValue),
            },
    {
        match Self::classify(y) {
            Some(s) => Ok(s),
            None => Err(ImapError::CannotParseSpecialValue),
        }
    }

    /// Classifies a non-empty IMAP value; `None` when no sentinel matches.
    pub fn classify(y: &[u8]) -> (r: Option<SpecialValue>)
        requires
            y@.len() >= 1,
        ensures
            r == classify(y@),
    {
        let b = y[0];
        let z = all_trailing_zero(y);
        if (b == 0xE0u8 || b == 0xE1u8) && z {
            return SpecialValue::try_from_tag(b);
        }
        let high = b & 0xF8u8;
        if (high == 0xC8u8 || high == 0xE8u8) && z {
            return SpecialValue::try_from_tag(high);
        }
        if high == 0xC0u8 {
            return Some(SpecialValue::UserDefined);
        }
        if b & 0xD0u8 == 0xD0u8 {
            return Some(SpecialValue::PosQuietNan);
        }
        if b & 0xF0u8 == 0xF0u8 {
            return Some(SpecialValue::NegQuietNan);
        }
        if b & 0xD8u8 == 0xD8u8 {
            return Some(SpecialValue::PosSignalNan);
        }
        if b & 0xF8u8 == 0xF8u8 {
            return Some(SpecialValue::NegSignalNan);
        }
        if b & 0xC0u8 == 0x80u8 && (b & 0x3Fu8 != 0 || !z) {
            return Some(SpecialValue::ReservedSpecial);
        }
        if high == 0xE0u8 && b & 0x06u8 != 0 && z {
            return Some(SpecialValue::ReservedMisbDefined);
        }
        None
    }
}

/// Whether every byte after the first is zero.
fn all_trailing_zero(y: &[u8]) -> (r: bool)
    ensures
        r == trailing_zero(y@),
{
    let mut i: usize = 1;
    while i < y.len()
        invariant
            1 <= i,
            forall|j: int| 1 <= j < i && j < y@.len() ==> y@[j] == 0,
        decreases y@.len() - i,
    {
        if y[i] != 0 {
            return false;
        }
        i = i + 1;
    }
    true
}

/// An IMAP value: either an already mapped integer or a special value.
pub enum Value {
    Normal(Vec<u8>),
    Special(SpecialValue),
}

impl Value {
    /// The bytes of this value; a special value is written with `len` bytes.
    pub fn to_imap(self, len: usize) -> (r: Vec<u8>)
        requires
            self is Special ==> len >= 1,
        ensures
            match self {
                Value::Normal(b) => r@ == b@,
                Value::Special(s) => r@ == special_bytes(s, len as nat),
            },
    {
        match self {
            Value::Normal(x) => x,
            Value::Special(x) => x.to_imap(&len),
        }
    }
}

} // verus!
