//! The generic KLV local-set decoder: a loop that reads a key and a BER
//! length, hands the value bytes of registered keys to their field slot,
//! skips unregistered keys, and checks the mandatory fields at the end.
//!
//! Each field slot keeps the value bytes of the last occurrence of its key;
//! the schema of a record decodes those bytes with its own leaf decoders.
use vstd::prelude::*;
use crate::ber::{
    ber_oid_spec, ber_length_spec, decode_ber_oid, decode_ber_length, lemma_ber_oid_len, lemma_ber_oid_prefix,
    lemma_ber_length_prefix,
};

verus! {

/// How the keys of a local set are written.
#[derive(Clone, Copy, Debug, PartialEq, Eq, Structural)]
pub enum KeyCoding {
    /// A BER-OID integer.
    BerOid,
    /// One byte.
    Byte,
}

/// A field of a local set: its key and whether the record needs it.
#[derive(Clone, Copy, Debug, PartialEq, Eq, Structural)]
pub struct FieldSpec {
    pub key: u64,
    pub mandatory: bool,
}

/// Errors of record decoding.
#[derive(Clone, Copy, Debug, PartialEq, Eq, Structural)]
pub enum KlvError {
    /// A value runs past the end of its record, or the record's framing
    /// length does.
    Malformed,
    /// The record does not start with its universal key.
    SentinelMismatch,
    /// A mandatory field has no value; `index` is its place in the table.
    MissingMandatoryField { key: u64, index: usize },
}

/// The value bytes given to each field of a table, in table order.
pub type Slots = Seq<Option<Seq<u8>>>;

/// The key at the front of `s` and the number of bytes it takes.
pub open spec fn key_spec(coding: KeyCoding, s: Seq<u8>) -> Option<(u64, usize)> {
    match coding {
        KeyCoding::BerOid => ber_oid_spec(s),
        KeyCoding::Byte => if s.len() >= 1 {
            Some((s[0] as u64, 1usize))
        } else {
            None
        },
    }
}

/// The key, the header length and the value length at the front of `s`.
pub open spec fn header_spec(coding: KeyCoding, s: Seq<u8>) -> Option<(u64, int, int)> {
    match key_spec(coding, s) {
        None => None,
        Some((k, n)) => match ber_length_spec(s.subrange(n as int, s.len() as int)) {
            None => None,
            Some((l, m)) => Some((k, n + m, l as int)),
        },
    }
}

/// The place of the first field of `fields[i..]` with key `k`.
pub open spec fn find_from(fields: Seq<FieldSpec>, k: u64, i: int) -> Option<int>
    decreases fields.len() - i,
{
    if i < 0 || i >= fields.len() {
        None
    } else if fields[i].key == k {
        Some(i)
    } else {
        find_from(fields, k, i + 1)
    }
}

/// The slots after giving `v` to the first field with key `k`, if any.
pub open spec fn store_spec(fields: Seq<FieldSpec>, slots: Slots, k: u64, v: Seq<u8>) -> Slots {
    match find_from(fields, k, 0) {
        Some(i) => slots.update(i, Some(v)),
        None => slots,
    }
}

/// The key-length-value loop over `s`: it ends where no key and length can
/// be read, fails when a value runs past the end, and otherwise stores the
/// value of a registered key in its slot (the last occurrence wins) and
/// skips the value of any other key.
#[verifier::opaque]
pub open spec fn scan(coding: KeyCoding, fields: Seq<FieldSpec>, s: Seq<u8>, slots: Slots) -> Result<Slots, KlvError>
    decreases s.len(),
{
    match header_spec(coding, s) {
        None => Ok(slots),
        Some((k, h, l)) => if h < 1 || h + l > s.len() {
            Err(KlvError::Malformed)
        } else {
            scan(coding, fields, s.subrange(h + l, s.len() as int), store_spec(fields, slots, k, s.subrange(h, h + l)))
        },
    }
}

/// One turn of the loop: a key and a length whose value lies within `s`.
pub proof fn lemma_scan_step(coding: KeyCoding, fields: Seq<FieldSpec>, s: Seq<u8>, slots: Slots)
    requires
        header_spec(coding, s) matches Some((k, h, l)) && 1 <= h && h + l <= s.len(),
    ensures
        header_spec(coding, s) matches Some((k, h, l)) && scan(coding, fields, s, slots) == scan(
            coding,
            fields,
            s.subrange(h + l, s.len() as int),
            store_spec(fields, slots, k, s.subrange(h, h + l)),
        ),
{
    reveal(scan);
}

/// The loop ends where no key and length can be read.
pub proof fn lemma_scan_end(coding: KeyCoding, fields: Seq<FieldSpec>, s: Seq<u8>, slots: Slots)
    requires
        header_spec(coding, s) is None,
    ensures
        scan(coding, fields, s, slots) == Ok::<Slots, KlvError>(slots),
{
    reveal(scan);
}

/// The loop fails on a value that runs past the end.
pub proof fn lemma_scan_overrun(coding: KeyCoding, fields: Seq<FieldSpec>, s: Seq<u8>, slots: Slots)
    requires
        header_spec(coding, s) matches Some((k, h, l)) && h + l > s.len(),
    ensures
        scan(coding, fields, s, slots) == Err::<Slots, KlvError>(KlvError::Malformed),
{
    reveal(scan);
}

/// The first mandatory field from `i` on whose slot is empty.
pub open spec fn first_missing(fields: Seq<FieldSpec>, slots: Slots, i: int) -> Option<int>
    decreases fields.len() - i,
{
    if i < 0 || i >= fields.len() {
        None
    } else if fields[i].mandatory && slots[i] is None {
        Some(i)
    } else {
        first_missing(fields, slots, i + 1)
    }
}

/// No field has a value yet.
pub open spec fn empty_slots(n: nat) -> Slots {
    Seq::new(n, |i: int| None)
}

/// What decoding the body `s` of a local set with table `fields` gives.
pub open spec fn decode_spec(coding: KeyCoding, fields: Seq<FieldSpec>, s: Seq<u8>) -> Result<Slots, KlvError> {
    match scan(coding, fields, s, empty_slots(fields.len())) {
        Err(e) => Err(e),
        Ok(slots) => match first_missing(fields, slots, 0) {
            Some(i) => Err(KlvError::MissingMandatoryField { key: fields[i].key, index: i as usize }),
            None => Ok(slots),
        },
    }
}

/// The keys that the loop reads from `s`, in order.
pub open spec fn parsed_keys(coding: KeyCoding, s: Seq<u8>) -> Seq<u64>
    decreases s.len(),
{
    match header_spec(coding, s) {
        None => Seq::empty(),
        Some((k, h, l)) => if h < 1 || h + l > s.len() {
            Seq::empty()
        } else {
            seq![k] + parsed_keys(coding, s.subrange(h + l, s.len() as int))
        },
    }
}

/// `s` is a sequence of whole key-length-value items.
pub open spec fn whole_items(coding: KeyCoding, s: Seq<u8>) -> bool
    decreases s.len(),
{
    if s.len() == 0 {
        true
    } else {
        match header_spec(coding, s) {
            None => false,
            Some((k, h, l)) => if h < 1 || h + l > s.len() {
                false
            } else {
                whole_items(coding, s.subrange(h + l, s.len() as int))
            },
        }
    }
}

/// Bytes after a complete key and length do not change them.
pub proof fn lemma_header_prefix(coding: KeyCoding, a: Seq<u8>, b: Seq<u8>)
    requires
        a.len() <= usize::MAX,
        header_spec(coding, a) is Some,
    ensures
        header_spec(coding, a + b) == header_spec(coding, a),
{
    let ab = a + b;
    if coding == KeyCoding::BerOid {
        lemma_ber_oid_prefix(a, b);
    } else {
        assert(ab[0] == a[0]);
    }
    lemma_key_in_input(coding, a);
    let (k, n) = key_spec(coding, a).unwrap();
    assert(ab.subrange(n as int, ab.len() as int) =~= a.subrange(n as int, a.len() as int) + b);
    lemma_ber_length_prefix(a.subrange(n as int, a.len() as int), b);
}

proof fn lemma_find_none(fields: Seq<FieldSpec>, k: u64, i: int)
    requires
        0 <= i,
        forall|j: int| 0 <= j < fields.len() ==> fields[j].key != k,
    ensures
        find_from(fields, k, i) is None,
    decreases fields.len() - i,
{
    if i < fields.len() {
        lemma_find_none(fields, k, i + 1);
    }
}

/// The loop over whole items followed by more bytes takes the first item
/// as it would without those bytes.
proof fn lemma_scan_first_item(coding: KeyCoding, fields: Seq<FieldSpec>, p: Seq<u8>, x: Seq<u8>, slots: Slots)
    requires
        p.len() + x.len() <= usize::MAX,
        header_spec(coding, p) matches Some((k, h, l)) && 1 <= h && h + l <= p.len(),
    ensures
        header_spec(coding, p) matches Some((k, h, l)) && scan(coding, fields, p + x, slots) == scan(
            coding,
            fields,
            p.subrange(h + l, p.len() as int) + x,
            store_spec(fields, slots, k, p.subrange(h, h + l)),
        ),
{
    let (k, h, l) = header_spec(coding, p).unwrap();
    lemma_header_prefix(coding, p, x);
    lemma_scan_step(coding, fields, p + x, slots);
    assert((p + x).subrange(h + l, (p + x).len() as int) =~= p.subrange(h + l, p.len() as int) + x);
    assert((p + x).subrange(h, h + l) =~= p.subrange(h, h + l));
}

/// Removing one item with an unregistered key from after whole items does
/// not change what the loop gives.
proof fn lemma_scan_skip(coding: KeyCoding, fields: Seq<FieldSpec>, p: Seq<u8>, u: Seq<u8>, q: Seq<u8>, slots: Slots)
    requires
        p.len() + u.len() + q.len() <= usize::MAX,
        whole_items(coding, p),
        header_spec(coding, u) matches Some((k, h, l)) && 1 <= h && h + l == u.len() && find_from(fields, k, 0) is None,
    ensures
        scan(coding, fields, p + u + q, slots) == scan(coding, fields, p + q, slots),
    decreases p.len(),
{
    if p.len() == 0 {
        assert(p + u + q =~= u + q);
        assert(p + q =~= q);
        assert(u + q =~= u + q + Seq::<u8>::empty());
        lemma_scan_first_item(coding, fields, u, q, slots);
        let (k, h, l) = header_spec(coding, u).unwrap();
        assert(u.subrange(h + l, u.len() as int) + q =~= q);
    } else {
        let (k2, h2, l2) = header_spec(coding, p).unwrap();
        let rest = p.subrange(h2 + l2, p.len() as int);
        let next = store_spec(fields, slots, k2, p.subrange(h2, h2 + l2));
        assert(p + u + q =~= p + (u + q));
        lemma_scan_first_item(coding, fields, p, u + q, slots);
        lemma_scan_first_item(coding, fields, p, q, slots);
        assert(rest + (u + q) =~= rest + u + q);
        lemma_scan_skip(coding, fields, rest, u, q, next);
    }
}

/// A record that holds an item with an unregistered key decodes as the
/// record without that item: the item is skipped.
pub proof fn lemma_skip_unknown(coding: KeyCoding, fields: Seq<FieldSpec>, p: Seq<u8>, u: Seq<u8>, q: Seq<u8>)
    requires
        p.len() + u.len() + q.len() <= usize::MAX,
        whole_items(coding, p),
        header_spec(coding, u) matches Some((k, h, l)) && 1 <= h && h + l == u.len()
            && forall|j: int| 0 <= j < fields.len() ==> fields[j].key != k,
    ensures
        decode_spec(coding, fields, p + u + q) == decode_spec(coding, fields, p + q),
{
    let (k, h, l) = header_spec(coding, u).unwrap();
    lemma_find_none(fields, k, 0);
    lemma_scan_skip(coding, fields, p, u, q, empty_slots(fields.len()));
}

/// A slot whose key the loop never reads stays empty.
proof fn lemma_slot_untouched(coding: KeyCoding, fields: Seq<FieldSpec>, s: Seq<u8>, slots: Slots, i: int)
    requires
        0 <= i < fields.len(),
        slots.len() == fields.len(),
        slots[i] is None,
        !parsed_keys(coding, s).contains(fields[i].key),
    ensures
        scan(coding, fields, s, slots) matches Ok(r) ==> r.len() == fields.len() && r[i] is None,
    decreases s.len(),
{
    reveal(scan);
    match header_spec(coding, s) {
        None => {},
        Some((k, h, l)) => {
            if 1 <= h && h + l <= s.len() {
                let rest = s.subrange(h + l, s.len() as int);
                assert(parsed_keys(coding, s) == seq![k] + parsed_keys(coding, rest));
                assert(parsed_keys(coding, s)[0] == k);
                assert(k != fields[i].key);
                assert forall|x: u64| parsed_keys(coding, rest).contains(x) implies parsed_keys(coding, s).contains(x) by {
                    let j = choose|j: int| 0 <= j < parsed_keys(coding, rest).len() && parsed_keys(coding, rest)[j] == x;
                    assert(parsed_keys(coding, s)[j + 1] == x);
                }
                lemma_find_from_range(fields, k, 0);
                let next = store_spec(fields, slots, k, s.subrange(h, h + l));
                lemma_slot_untouched(coding, fields, rest, next, i);
            }
        },
    }
}

proof fn lemma_first_missing_upto(fields: Seq<FieldSpec>, r: Slots, m: int, i: int)
    requires
        0 <= m <= i < fields.len(),
        fields[i].mandatory,
        r[i] is None,
    ensures
        first_missing(fields, r, m) matches Some(j) && m <= j <= i && fields[j].mandatory && r[j] is None,
    decreases i - m,
{
    if m < i && !(fields[m].mandatory && r[m] is None) {
        lemma_first_missing_upto(fields, r, m + 1, i);
    }
}

/// A record whose items never carry the key of a mandatory field fails with
/// `MissingMandatoryField`, naming a mandatory field that has no value: that
/// field, or one before it in the table.
pub proof fn lemma_missing_mandatory(coding: KeyCoding, fields: Seq<FieldSpec>, s: Seq<u8>, i: int)
    requires
        0 <= i < fields.len() <= usize::MAX,
        fields[i].mandatory,
        !parsed_keys(coding, s).contains(fields[i].key),
        scan(coding, fields, s, empty_slots(fields.len())) is Ok,
    ensures
        decode_spec(coding, fields, s) matches Err(KlvError::MissingMandatoryField { key, index })
            && index <= i && fields[index as int].mandatory && key == fields[index as int].key,
{
    lemma_slot_untouched(coding, fields, s, empty_slots(fields.len()), i);
    let r = scan(coding, fields, s, empty_slots(fields.len())).unwrap();
    lemma_first_missing_upto(fields, r, 0, i);
}

/// The view of decoded slots.
pub open spec fn slots_view(v: Seq<Option<Vec<u8>>>) -> Slots {
    Seq::new(v.len(), |i: int| match v[i] {
        Some(b) => Some(b@),
        None => None,
    })
}

/// Reads the key at the front of `s`.
fn read_key(coding: KeyCoding, s: &[u8]) -> (r: Option<(u64, usize)>)
    ensures
        r == key_spec(coding, s@),
{
    match coding {
        KeyCoding::BerOid => decode_ber_oid(s),
        KeyCoding::Byte => if s.len() >= 1 {
            Some((s[0] as u64, 1))
        } else {
            None
        },
    }
}

/// The key of a header takes at least one byte and lies within `s`.
proof fn lemma_key_in_input(coding: KeyCoding, s: Seq<u8>)
    requires
        s.len() <= usize::MAX,
    ensures
        key_spec(coding, s) matches Some((k, n)) ==> 1 <= n <= s.len(),
{
    lemma_ber_oid_len(s);
}

/// Reads the key and the length at the front of `s`.
pub fn read_header(coding: KeyCoding, s: &[u8]) -> (r: Option<(u64, usize, u64)>)
    ensures
        match header_spec(coding, s@) {
            Some((k, h, l)) => r == Some((k, h as usize, l as u64)) && 1 <= h <= s@.len(),
            None => r is None,
        },
{
    let total = s.len();
    proof {
        lemma_key_in_input(coding, s@);
    }
    match read_key(coding, s) {
        None => None,
        Some((k, n)) => {
            let rest = vstd::slice::slice_subrange(s, n, s.len());
            assert(rest@ =~= s@.subrange(n as int, s@.len() as int));
            match decode_ber_length(rest) {
                None => None,
                Some((l, m)) => {
                    proof {
                        lemma_length_in_input(rest@);
                    }
                    Some((k, n + m, l))
                },
            }
        },
    }
}

proof fn lemma_length_in_input(s: Seq<u8>)
    ensures
        ber_length_spec(s) matches Some((l, m)) ==> 1 <= m <= s.len(),
{
}

/// The place of the first field with key `k`.
fn find_field(fields: &Vec<FieldSpec>, k: u64) -> (r: Option<usize>)
    ensures
        r matches Some(i) ==> find_from(fields@, k, 0) == Some(i as int) && i < fields@.len(),
        r is None ==> find_from(fields@, k, 0) is None,
{
    let mut i: usize = 0;
    while i < fields.len()
        invariant
            i <= fields@.len(),
            find_from(fields@, k, 0) == find_from(fields@, k, i as int),
        decreases fields@.len() - i,
    {
        if fields[i].key == k {
            return Some(i);
        }
        i = i + 1;
    }
    None
}

/// Gives `value` to the first field with key `k`, if there is one.
fn store(fields: &Vec<FieldSpec>, slots: &mut Vec<Option<Vec<u8>>>, k: u64, value: &[u8])
    requires
        old(slots)@.len() == fields@.len(),
    ensures
        final(slots)@.len() == fields@.len(),
        slots_view(final(slots)@) == store_spec(fields@, slots_view(old(slots)@), k, value@),
{
    match find_field(fields, k) {
        Some(i) => {
            let v = vstd::slice::slice_to_vec(value);
            slots[i] = Some(v);
            assert(slots_view(slots@) =~= slots_view(old(slots)@).update(i as int, Some(value@)));
        },
        None => {
            assert(slots_view(slots@) =~= slots_view(old(slots)@));
        },
    }
}

proof fn lemma_find_from_range(fields: Seq<FieldSpec>, k: u64, i: int)
    ensures
        find_from(fields, k, i) matches Some(j) ==> i <= j < fields.len() && fields[j].key == k,
    decreases fields.len() - i,
{
    if 0 <= i < fields.len() && fields[i].key != k {
        lemma_find_from_range(fields, k, i + 1);
    }
}

/// Decodes the body of a local set: the value bytes of each field of
/// `fields`, or the first error.
pub fn decode_local_set(coding: KeyCoding, fields: &Vec<FieldSpec>, s: &[u8]) -> (r: Result<Vec<Option<Vec<u8>>>, KlvError>)
    ensures
        r matches Ok(v) ==> v@.len() == fields@.len(),
        match decode_spec(coding, fields@, s@) {
            Ok(slots) => r matches Ok(v) && slots_view(v@) == slots,
            Err(e) => r == Err::<Vec<Option<Vec<u8>>>, KlvError>(e),
        },
{
    let mut slots: Vec<Option<Vec<u8>>> = Vec::new();
    let mut j: usize = 0;
    while j < fields.len()
        invariant
            j <= fields@.len(),
            slots@.len() == j,
            forall|i: int| 0 <= i < j ==> slots@[i] is None,
        decreases fields@.len() - j,
    {
        slots.push(None);
        j = j + 1;
    }
    assert(slots_view(slots@) =~= empty_slots(fields@.len()));
    assert(s@.subrange(0, s@.len() as int) =~= s@);
    let mut pos: usize = 0;
    loop
        invariant
            pos <= s@.len(),
            slots@.len() == fields@.len(),
            scan(coding, fields@, s@, empty_slots(fields@.len()))
                == scan(coding, fields@, s@.subrange(pos as int, s@.len() as int), slots_view(slots@)),
        ensures
            slots@.len() == fields@.len(),
            scan(coding, fields@, s@, empty_slots(fields@.len())) == Ok::<Slots, KlvError>(slots_view(slots@)),
        decreases s@.len() - pos,
    {
        let rest = vstd::slice::slice_subrange(s, pos, s.len());
        let ghost rs = s@.subrange(pos as int, s@.len() as int);
        assert(rest@ =~= rs);
        match read_header(coding, rest) {
            None => {
                proof {
                    lemma_scan_end(coding, fields@, rs, slots_view(slots@));
                }
                break;
            },
            Some((k, h, l)) => {
                if l > (rest.len() - h) as u64 {
                    proof {
                        lemma_scan_overrun(coding, fields@, rs, slots_view(slots@));
                    }
                    return Err(KlvError::Malformed);
                }
                let vend: usize = pos + h + l as usize;
                let ghost before = slots_view(slots@);
                proof {
                    lemma_scan_step(coding, fields@, rs, before);
                }
                let value = vstd::slice::slice_subrange(s, pos + h, vend);
                assert(value@ =~= rs.subrange(h as int, h + l));
                store(fields, &mut slots, k, value);
                assert(s@.subrange(vend as int, s@.len() as int) =~= rs.subrange(h + l, rs.len() as int));
                pos = vend;
            },
        }
    }
    let ghost fin = slots_view(slots@);
    let mut i: usize = 0;
    while i < fields.len()
        invariant
            i <= fields@.len(),
            slots@.len() == fields@.len(),
            fin == slots_view(slots@),
            scan(coding, fields@, s@, empty_slots(fields@.len())) == Ok::<Slots, KlvError>(fin),
            first_missing(fields@, fin, 0) == first_missing(fields@, fin, i as int),
        decreases fields@.len() - i,
    {
        if fields[i].mandatory && slots[i].is_none() {
            assert(first_missing(fields@, fin, i as int) == Some(i as int));
            return Err(KlvError::MissingMandatoryField { key: fields[i].key, index: i });
        }
        i = i + 1;
    }
    Ok(slots)
}

/// Where the body of a record framed by `sentinel` lies in `s`: the
/// sentinel, then a BER length, then a body of that length.
pub open spec fn frame_spec(sentinel: Seq<u8>, s: Seq<u8>) -> Result<(int, int), KlvError> {
    let n = sentinel.len() as int;
    if s.len() < n || s.subrange(0, n) != sentinel {
        Err(KlvError::SentinelMismatch)
    } else {
        match ber_length_spec(s.subrange(n, s.len() as int)) {
            None => Err(KlvError::Malformed),
            Some((l, m)) => if n + m + l > s.len() {
                Err(KlvError::Malformed)
            } else {
                Ok((n + m, l as int))
            },
        }
    }
}

/// What decoding a framed record gives: the slots of its body and the
/// number of bytes the record takes.
pub open spec fn decode_framed_spec(coding: KeyCoding, fields: Seq<FieldSpec>, sentinel: Seq<u8>, s: Seq<u8>) -> Result<(Slots, int), KlvError> {
    match frame_spec(sentinel, s) {
        Err(e) => Err(e),
        Ok((start, len)) => match decode_spec(coding, fields, s.subrange(start, start + len)) {
            Err(e) => Err(e),
            Ok(slots) => Ok((slots, start + len)),
        },
    }
}

/// Finds the body of a record framed by `sentinel`: its start and length.
pub fn frame(sentinel: &[u8], s: &[u8]) -> (r: Result<(usize, usize), KlvError>)
    ensures
        r matches Ok((a, b)) ==> frame_spec(sentinel@, s@) == Ok::<(int, int), KlvError>((a as int, b as int)) && a + b <= s@.len(),
        r matches Err(e) ==> frame_spec(sentinel@, s@) == Err::<(int, int), KlvError>(e),
{
    let n = sentinel.len();
    if s.len() < n {
        return Err(KlvError::SentinelMismatch);
    }
    let mut i: usize = 0;
    while i < n
        invariant
            i <= n,
            n == sentinel@.len(),
            n <= s@.len(),
            forall|j: int| 0 <= j < i ==> s@[j] == sentinel@[j],
        decreases n - i,
    {
        if s[i] != sentinel[i] {
            assert(s@.subrange(0, n as int)[i as int] != sentinel@[i as int]);
            return Err(KlvError::SentinelMismatch);
        }
        i = i + 1;
    }
    assert(s@.subrange(0, n as int) =~= sentinel@);
    let rest = vstd::slice::slice_subrange(s, n, s.len());
    assert(rest@ =~= s@.subrange(n as int, s@.len() as int));
    match decode_ber_length(rest) {
        None => Err(KlvError::Malformed),
        Some((l, m)) => {
            proof {
                lemma_length_in_input(rest@);
            }
            if l > (rest.len() - m) as u64 {
                Err(KlvError::Malformed)
            } else {
                Ok((n + m, l as usize))
            }
        },
    }
}

/// Decodes a record framed by `sentinel`: the value bytes of each field of
/// its body, and the number of bytes the record takes.
pub fn decode_framed(coding: KeyCoding, fields: &Vec<FieldSpec>, sentinel: &[u8], s: &[u8]) -> (r: Result<(Vec<Option<Vec<u8>>>, usize), KlvError>)
    ensures
        match decode_framed_spec(coding, fields@, sentinel@, s@) {
            Ok((slots, used)) => r matches Ok((v, u)) && slots_view(v@) == slots && u == used,
            Err(e) => r == Err::<(Vec<Option<Vec<u8>>>, usize), KlvError>(e),
        },
{
    match frame(sentinel, s) {
        Err(e) => Err(e),
        Ok((start, len)) => {
            let total = s.len();
            assert(start + len <= total);
            let body = vstd::slice::slice_subrange(s, start, start + len);
            match decode_local_set(coding, fields, body) {
                Err(e) => Err(e),
                Ok(v) => Ok((v, start + len)),
            }
        },
    }
}

/// The leading identifier of a record whose items follow an unkeyed
/// BER-OID value, and where its items start.
pub open spec fn leading_id_spec(s: Seq<u8>) -> (Option<u64>, int) {
    match ber_oid_spec(s) {
        Some((id, n)) => (Some(id), n as int),
        None => (None, 0),
    }
}

/// Decodes a record whose items follow an unkeyed BER-OID identifier. The
/// identifier is kept whatever the items give; when no identifier can be
/// read, the items start at the front.
pub fn decode_with_leading_id(coding: KeyCoding, fields: &Vec<FieldSpec>, s: &[u8]) -> (r: (
    Option<u64>,
    Result<Vec<Option<Vec<u8>>>, KlvError>,
))
    ensures
        r.0 == leading_id_spec(s@).0,
        match decode_spec(coding, fields@, s@.subrange(leading_id_spec(s@).1, s@.len() as int)) {
            Ok(slots) => r.1 matches Ok(v) && slots_view(v@) == slots,
            Err(e) => r.1 == Err::<Vec<Option<Vec<u8>>>, KlvError>(e),
        },
{
    let total = s.len();
    proof {
        lemma_ber_oid_len(s@);
    }
    match decode_ber_oid(s) {
        Some((id, n)) => {
            assert(n <= total);
            let rest = vstd::slice::slice_subrange(s, n, s.len());
            (Some(id), decode_local_set(coding, fields, rest))
        },
        None => {
            assert(s@.subrange(0, s@.len() as int) =~= s@);
            (None, decode_local_set(coding, fields, s))
        },
    }
}

/// A series of fixed-width records: as many whole records of `width` bytes
/// as `s` holds; a shorter remainder is left out.
pub open spec fn fixed_series(s: Seq<u8>, width: int) -> Seq<Seq<u8>> {
    Seq::new((s.len() as int / width) as nat, |i: int| s.subrange(i * width, (i + 1) * width))
}

/// Splits `s` into records of `width` bytes.
pub fn split_fixed_series(s: &[u8], width: usize) -> (r: Vec<Vec<u8>>)
    requires
        width >= 1,
    ensures
        r@.len() == fixed_series(s@, width as int).len(),
        forall|i: int| 0 <= i < r@.len() ==> #[trigger] r@[i]@ == fixed_series(s@, width as int)[i],
{
    let count = s.len() / width;
    let mut out: Vec<Vec<u8>> = Vec::new();
    let mut i: usize = 0;
    while i < count
        invariant
            i <= count,
            count == (s@.len() as int) / (width as int),
            s@.len() <= usize::MAX,
            width >= 1,
            out@.len() == i,
            forall|j: int| 0 <= j < i ==> #[trigger] out@[j]@ == fixed_series(s@, width as int)[j],
        decreases count - i,
    {
        proof {
            assert((i + 1) * width <= count * width) by (nonlinear_arith)
                requires
                    i + 1 <= count,
                    width >= 1,
            ;
            assert(count * width <= s@.len()) by (nonlinear_arith)
                requires
                    count == (s@.len() as int) / (width as int),
                    width >= 1,
            ;
            assert(i * width + width == (i + 1) * width) by (nonlinear_arith);
        }
        let chunk = vstd::slice::slice_to_vec(vstd::slice::slice_subrange(s, i * width, i * width + width));
        out.push(chunk);
        i = i + 1;
    }
    out
}

/// A series of records each framed by a BER length: records are read
/// while a length can be read and its record fits; the rest is left out.
pub open spec fn prefixed_series(s: Seq<u8>) -> Seq<Seq<u8>>
    decreases s.len(),
{
    match ber_length_spec(s) {
        None => Seq::empty(),
        Some((l, m)) => if m < 1 || m + l > s.len() {
            Seq::empty()
        } else {
            seq![s.subrange(m as int, m + l)] + prefixed_series(s.subrange(m + l, s.len() as int))
        },
    }
}

/// Splits `s` into BER-length framed records.
pub fn split_prefixed_series(s: &[u8]) -> (r: Vec<Vec<u8>>)
    ensures
        r@.len() == prefixed_series(s@).len(),
        forall|i: int| 0 <= i < r@.len() ==> #[trigger] r@[i]@ == prefixed_series(s@)[i],
{
    let mut out: Vec<Vec<u8>> = Vec::new();
    let mut pos: usize = 0;
    assert(s@.subrange(0, s@.len() as int) =~= s@);
    loop
        invariant
            pos <= s@.len(),
            prefixed_series(s@) == out@.map_values(|v: Vec<u8>| v@) + prefixed_series(s@.subrange(pos as int, s@.len() as int)),
        ensures
            prefixed_series(s@) == out@.map_values(|v: Vec<u8>| v@),
        decreases s@.len() - pos,
    {
        let rest = vstd::slice::slice_subrange(s, pos, s.len());
        let ghost rs = s@.subrange(pos as int, s@.len() as int);
        assert(rest@ =~= rs);
        match decode_ber_length(rest) {
            None => {
                assert(out@.map_values(|v: Vec<u8>| v@) + prefixed_series(rs) =~= out@.map_values(|v: Vec<u8>| v@));
                break;
            },
            Some((l, m)) => {
                proof {
                    lemma_length_in_input(rest@);
                }
                if l > (rest.len() - m) as u64 {
                    assert(out@.map_values(|v: Vec<u8>| v@) + prefixed_series(rs) =~= out@.map_values(|v: Vec<u8>| v@));
                    break;
                }
                let end: usize = pos + m + l as usize;
                let chunk = vstd::slice::slice_to_vec(vstd::slice::slice_subrange(s, pos + m, end));
                let ghost before = out@.map_values(|v: Vec<u8>| v@);
                out.push(chunk);
                proof {
                    assert(chunk@ =~= rs.subrange(m as int, m + l));
                    assert(s@.subrange(end as int, s@.len() as int) =~= rs.subrange(m + l, rs.len() as int));
                    assert(out@.map_values(|v: Vec<u8>| v@) =~= before.push(chunk@));
                    assert(prefixed_series(rs) == seq![chunk@] + prefixed_series(s@.subrange(end as int, s@.len() as int)));
                    assert(before + prefixed_series(rs) =~= out@.map_values(|v: Vec<u8>| v@) + prefixed_series(s@.subrange(end as int, s@.len() as int)));
                }
                pos = end;
            },
        }
    }
    out
}

} // verus!
