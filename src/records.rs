//! Local sets of the VMTI standard that carry only integers and text: the
//! algorithm and ontology records, decoded with the generic key-length-value
//! loop and a field table.
use vstd::prelude::*;
use crate::imap::be_value;
use crate::klv::{KeyCoding, FieldSpec, KlvError, Slots, decode_spec, decode_local_set, slots_view};

verus! {

/// The text of UTF-8 bytes, or `None` when they are not UTF-8.
pub uninterp spec fn utf8_text(b: Seq<u8>) -> Option<Seq<char>>;

/// Relies on `String::from_utf8`: the text of the bytes when they are valid
/// UTF-8, and an error otherwise; the outcome depends on the bytes alone.
#[verifier::external_body]
fn utf8_string(b: Vec<u8>) -> (r: Option<String>)
    ensures
        match utf8_text(b@) {
            Some(t) => r matches Some(x) && x@ == t,
            None => r is None,
        },
{
    String::from_utf8(b).ok()
}

/// A value of one to eight bytes read as a big-endian unsigned integer.
pub open spec fn uint_value(b: Seq<u8>) -> Option<u64> {
    if 1 <= b.len() <= 8 {
        Some(be_value(b) as u64)
    } else {
        None
    }
}

/// The integer held by a slot.
pub open spec fn slot_uint(slot: Option<Seq<u8>>) -> Option<u64> {
    match slot {
        Some(b) => uint_value(b),
        None => None,
    }
}

/// The text held by a slot.
pub open spec fn slot_text(slot: Option<Seq<u8>>) -> Option<Seq<char>> {
    match slot {
        Some(b) => utf8_text(b),
        None => None,
    }
}

pub open spec fn text_view(t: Option<String>) -> Option<Seq<char>> {
    match t {
        Some(x) => Some(x@),
        None => None,
    }
}

fn uint_of(slot: &Option<Vec<u8>>) -> (r: Option<u64>)
    ensures
        r == slot_uint(match slot {
            Some(b) => Some(b@),
            None => None,
        }),
{
    match slot {
        None => None,
        Some(b) => {
            if b.len() < 1 || b.len() > 8 {
                return None;
            }
            proof {
                crate::dyadic::lemma_pow2_values();
                crate::dyadic::lemma_p2_mono(8 * (b@.len() as int), 64);
            }
            match crate::misb0601::read_unsigned(b.as_slice(), b.len()) {
                Ok(v) => {
                    assert(b@.subrange(0, b@.len() as int) =~= b@);
                    Some(v)
                },
                Err(_) => None,
            }
        },
    }
}

fn text_of(slot: &Option<Vec<u8>>) -> (r: Option<String>)
    ensures
        text_view(r) == slot_text(match slot {
            Some(b) => Some(b@),
            None => None,
        }),
{
    match slot {
        None => None,
        Some(b) => utf8_string(b.clone()),
    }
}

fn fields_of(keys: &[u64], mandatory: &[bool]) -> (r: Vec<FieldSpec>)
    requires
        keys@.len() == mandatory@.len(),
    ensures
        r@.len() == keys@.len(),
        forall|i: int| 0 <= i < r@.len() ==> #[trigger] r@[i] == (FieldSpec { key: keys@[i], mandatory: mandatory@[i] }),
{
    let mut out: Vec<FieldSpec> = Vec::new();
    let mut i: usize = 0;
    while i < keys.len()
        invariant
            i <= keys@.len(),
            keys@.len() == mandatory@.len(),
            out@.len() == i,
            forall|j: int| 0 <= j < i ==> #[trigger] out@[j] == (FieldSpec { key: keys@[j], mandatory: mandatory@[j] }),
        decreases keys@.len() - i,
    {
        out.push(FieldSpec { key: keys[i], mandatory: mandatory[i] });
        i = i + 1;
    }
    out
}

/// An algorithm of the VMTI algorithm series.
#[derive(Clone, Debug, PartialEq, Eq)]
pub struct Misb0903Algorithm {
    pub algorithm_id: u64,
    pub name: Option<String>,
    pub version: Option<String>,
    pub class: Option<String>,
    pub n_frames: Option<u64>,
}

/// The field table of the algorithm local set: one-byte keys 1 to 5, the
/// identifier mandatory.
pub open spec fn algorithm_fields() -> Seq<FieldSpec> {
    seq![
        FieldSpec { key: 1, mandatory: true },
        FieldSpec { key: 2, mandatory: false },
        FieldSpec { key: 3, mandatory: false },
        FieldSpec { key: 4, mandatory: false },
        FieldSpec { key: 5, mandatory: false },
    ]
}

/// What decoding an algorithm local set gives: the slots of its fields, or
/// the first error; an identifier that does not decode counts as missing.
pub open spec fn algorithm_spec(s: Seq<u8>) -> Result<Slots, KlvError> {
    match decode_spec(KeyCoding::Byte, algorithm_fields(), s) {
        Err(e) => Err(e),
        Ok(slots) => if slot_uint(slots[0]) is None {
            Err(KlvError::MissingMandatoryField { key: 1, index: 0 })
        } else {
            Ok(slots)
        },
    }
}

impl Misb0903Algorithm {
    /// Decodes an algorithm local set.
    pub fn decode(s: &[u8]) -> (r: Result<Misb0903Algorithm, KlvError>)
        ensures
            match algorithm_spec(s@) {
                Err(e) => r == Err::<Misb0903Algorithm, KlvError>(e),
                Ok(slots) => r matches Ok(a) && Some(a.algorithm_id) == slot_uint(slots[0])
                    && text_view(a.name) == slot_text(slots[1]) && text_view(a.version) == slot_text(slots[2])
                    && text_view(a.class) == slot_text(slots[3]) && a.n_frames == slot_uint(slots[4]),
            },
    {
        let fields = fields_of(&[1u64, 2, 3, 4, 5], &[true, false, false, false, false]);
        assert(fields@ =~= algorithm_fields());
        let slots = decode_local_set(KeyCoding::Byte, &fields, s)?;
        let algorithm_id = match uint_of(&slots[0]) {
            Some(v) => v,
            None => {
                return Err(KlvError::MissingMandatoryField { key: 1, index: 0 });
            },
        };
        Ok(Misb0903Algorithm {
            algorithm_id,
            name: text_of(&slots[1]),
            version: text_of(&slots[2]),
            class: text_of(&slots[3]),
            n_frames: uint_of(&slots[4]),
        })
    }
}

/// An ontology of the VMTI ontology series.
#[derive(Clone, Debug, PartialEq, Eq)]
pub struct Misb0903Ontology {
    pub ontology_id: u64,
    pub parent_id: Option<u64>,
    pub ontology_iri: String,
    pub entity_iri: String,
    pub version_iri: Option<String>,
    pub label: Option<String>,
}

/// The field table of the ontology local set: BER-OID keys 1 to 6; the
/// identifier, the ontology IRI and the entity IRI mandatory.
pub open spec fn ontology_fields() -> Seq<FieldSpec> {
    seq![
        FieldSpec { key: 1, mandatory: true },
        FieldSpec { key: 2, mandatory: false },
        FieldSpec { key: 3, mandatory: true },
        FieldSpec { key: 4, mandatory: true },
        FieldSpec { key: 5, mandatory: false },
        FieldSpec { key: 6, mandatory: false },
    ]
}

/// What decoding an ontology local set gives; a mandatory value that does
/// not decode counts as missing.
pub open spec fn ontology_spec(s: Seq<u8>) -> Result<Slots, KlvError> {
    match decode_spec(KeyCoding::BerOid, ontology_fields(), s) {
        Err(e) => Err(e),
        Ok(slots) => if slot_uint(slots[0]) is None {
            Err(KlvError::MissingMandatoryField { key: 1, index: 0 })
        } else if slot_text(slots[2]) is None {
            Err(KlvError::MissingMandatoryField { key: 3, index: 2 })
        } else if slot_text(slots[3]) is None {
            Err(KlvError::MissingMandatoryField { key: 4, index: 3 })
        } else {
            Ok(slots)
        },
    }
}

impl Misb0903Ontology {
    /// Decodes an ontology local set.
    pub fn decode(s: &[u8]) -> (r: Result<Misb0903Ontology, KlvError>)
        ensures
            match ontology_spec(s@) {
                Err(e) => r == Err::<Misb0903Ontology, KlvError>(e),
                Ok(slots) => r matches Ok(o) && Some(o.ontology_id) == slot_uint(slots[0])
                    && o.parent_id == slot_uint(slots[1]) && Some(o.ontology_iri@) == slot_text(slots[2])
                    && Some(o.entity_iri@) == slot_text(slots[3]) && text_view(o.version_iri) == slot_text(slots[4])
                    && text_view(o.label) == slot_text(slots[5]),
            },
    {
        let fields = fields_of(&[1u64, 2, 3, 4, 5, 6], &[true, false, true, true, false, false]);
        assert(fields@ =~= ontology_fields());
        let slots = decode_local_set(KeyCoding::BerOid, &fields, s)?;
        let ontology_id = match uint_of(&slots[0]) {
            Some(v) => v,
            None => {
                return Err(KlvError::MissingMandatoryField { key: 1, index: 0 });
            },
        };
        let ontology_iri = match text_of(&slots[2]) {
            Some(v) => v,
            None => {
                return Err(KlvError::MissingMandatoryField { key: 3, index: 2 });
            },
        };
        let entity_iri = match text_of(&slots[3]) {
            Some(v) => v,
            None => {
                return Err(KlvError::MissingMandatoryField { key: 4, index: 3 });
            },
        };
        Ok(Misb0903Ontology {
            ontology_id,
            parent_id: uint_of(&slots[1]),
            ontology_iri,
            entity_iri,
            version_iri: text_of(&slots[4]),
            label: text_of(&slots[5]),
        })
    }
}

} // verus!
