//! Decoding and encoding of motion-imagery KLV metadata: the floating-point
//! to integer mapping (IMAP) with its special-value sentinels, the BER
//! integer codecs of KLV framing, and the generic local-set decoder.
use vstd::prelude::*;

pub mod ber;
pub mod dyadic;
pub mod imap;
pub mod klv;
pub mod misb0601;
pub mod misb0903;
pub mod records;
pub mod special;

verus! {

/// Width in bytes of a fixed-size encoded value.
pub trait LengthBytes {
    spec fn spec_length_bytes() -> nat;

    fn length_bytes() -> (r: usize)
        ensures
            r == Self::spec_length_bytes(),
    ;
}

} // verus!
