use misb::ber::{decode_ber_length, decode_ber_oid, encode_ber_length, encode_ber_oid};
use misb::klv::{
    decode_framed, decode_local_set, decode_with_leading_id, split_fixed_series, split_prefixed_series, FieldSpec, KeyCoding, KlvError,
};

const UAS_KEY: [u8; 16] = [
    0x06, 0x0E, 0x2B, 0x34, 0x02, 0x0B, 0x01, 0x01, 0x0E, 0x01, 0x03, 0x01, 0x01, 0x00, 0x00, 0x00,
];

fn table() -> Vec<FieldSpec> {
    vec![
        FieldSpec { key: 0x01, mandatory: true },
        FieldSpec { key: 0x02, mandatory: true },
        FieldSpec { key: 0x03, mandatory: false },
    ]
}

#[test]
fn ber_oid_decodes_groups() {
    assert_eq!(decode_ber_oid(&[0x05, 0xFF]), Some((5, 1)));
    assert_eq!(decode_ber_oid(&[0x81, 0x00]), Some((128, 2)));
    assert_eq!(decode_ber_oid(&[0x82, 0x80, 0x01, 0x09]), Some((0x8001, 3)));
    // unterminated
    assert_eq!(decode_ber_oid(&[0x81, 0x80]), None);
    assert_eq!(decode_ber_oid(&[]), None);
    // ten groups of seven bits overflow 64 bits
    let mut big = vec![0xFFu8; 9];
    big.push(0x7F);
    assert_eq!(decode_ber_oid(&big), None);
    // the largest 64-bit value fits
    let max = encode_ber_oid(u64::MAX);
    assert_eq!(max.len(), 10);
    assert_eq!(decode_ber_oid(&max), Some((u64::MAX, 10)));
}

#[test]
fn ber_oid_encodes_groups() {
    assert_eq!(encode_ber_oid(0), vec![0x00]);
    assert_eq!(encode_ber_oid(127), vec![0x7F]);
    assert_eq!(encode_ber_oid(128), vec![0x81, 0x00]);
    assert_eq!(encode_ber_oid(0x8001), vec![0x82, 0x80, 0x01]);
    for v in [1u64, 300, 16384, 1 << 40] {
        let b = encode_ber_oid(v);
        assert_eq!(decode_ber_oid(&b), Some((v, b.len())));
    }
}

#[test]
fn ber_length_forms() {
    assert_eq!(decode_ber_length(&[0x05]), Some((5, 1)));
    assert_eq!(decode_ber_length(&[0x7F, 0x00]), Some((127, 1)));
    assert_eq!(decode_ber_length(&[0x82, 0x01, 0x00]), Some((256, 3)));
    assert_eq!(decode_ber_length(&[0x81, 0x90]), Some((0x90, 2)));
    assert_eq!(decode_ber_length(&[0x80]), None);
    assert_eq!(decode_ber_length(&[0x82, 0x01]), None);
    assert_eq!(decode_ber_length(&[]), None);
    assert_eq!(decode_ber_length(&[0x89, 1, 0, 0, 0, 0, 0, 0, 0, 0]), None);
    assert_eq!(encode_ber_length(5), vec![0x05]);
    assert_eq!(encode_ber_length(300), vec![0x82, 0x01, 0x2C]);
    assert_eq!(encode_ber_length(128), vec![0x81, 0x80]);
    let b = encode_ber_length(u64::MAX);
    assert_eq!(decode_ber_length(&b), Some((u64::MAX, 9)));
}

#[test]
fn local_set_skips_unknown_key() {
    // key 0x99 is written 0x81 0x19 as a BER-OID
    assert_eq!(encode_ber_oid(0x99), vec![0x81, 0x19]);
    let body = vec![0x01, 0x02, 0xAA, 0xBB, 0x81, 0x19, 0x04, 1, 2, 3, 4, 0x02, 0x01, 0x07];
    let slots = decode_local_set(KeyCoding::BerOid, &table(), &body).unwrap();
    assert_eq!(slots, vec![Some(vec![0xAA, 0xBB]), Some(vec![0x07]), None]);
    let without = vec![0x01, 0x02, 0xAA, 0xBB, 0x02, 0x01, 0x07];
    assert_eq!(decode_local_set(KeyCoding::BerOid, &table(), &without).unwrap(), slots);
}

#[test]
fn local_set_missing_mandatory_names_field() {
    let body = vec![0x01, 0x01, 0x10, 0x03, 0x00];
    assert_eq!(
        decode_local_set(KeyCoding::BerOid, &table(), &body),
        Err(KlvError::MissingMandatoryField { key: 0x02, index: 1 })
    );
    assert_eq!(
        decode_local_set(KeyCoding::BerOid, &table(), &[]),
        Err(KlvError::MissingMandatoryField { key: 0x01, index: 0 })
    );
}

#[test]
fn local_set_last_value_wins_and_stops_at_garbage() {
    // a second value for key 1 replaces the first; a lone 0x81 ends the record
    let body = vec![0x01, 0x01, 0x10, 0x02, 0x00, 0x01, 0x01, 0x20, 0x81];
    let slots = decode_local_set(KeyCoding::BerOid, &table(), &body).unwrap();
    assert_eq!(slots, vec![Some(vec![0x20]), Some(vec![]), None]);
}

#[test]
fn local_set_overrun_is_malformed() {
    let body = vec![0x01, 0x01, 0x10, 0x02, 0x05, 0x00];
    assert_eq!(decode_local_set(KeyCoding::BerOid, &table(), &body), Err(KlvError::Malformed));
}

#[test]
fn local_set_with_byte_keys() {
    let fields = vec![FieldSpec { key: 0x81, mandatory: true }];
    let body = vec![0x81, 0x01, 0x33];
    assert_eq!(decode_local_set(KeyCoding::Byte, &fields, &body).unwrap(), vec![Some(vec![0x33])]);
    // as a BER-OID the first two bytes are key 0x81, and 0x33 is a length
    // that runs past the end
    assert_eq!(decode_local_set(KeyCoding::BerOid, &fields, &body), Err(KlvError::Malformed));
}

#[test]
fn framed_record_discards_unknown_payload() {
    let mut record = UAS_KEY.to_vec();
    let body = vec![0x81, 0x19, 0x04, 0xDE, 0xAD, 0xBE, 0xEF, 0x01, 0x01, 0x2A, 0x02, 0x02, 0x12, 0x34];
    record.push(body.len() as u8);
    record.extend_from_slice(&body);
    record.extend_from_slice(&[0xFF, 0xFF]);
    let (slots, used) = decode_framed(KeyCoding::BerOid, &table(), &UAS_KEY, &record).unwrap();
    assert_eq!(slots, vec![Some(vec![0x2A]), Some(vec![0x12, 0x34]), None]);
    assert_eq!(used, 16 + 1 + body.len());
}

#[test]
fn framed_record_errors() {
    let mut wrong = UAS_KEY.to_vec();
    wrong[15] = 0x01;
    wrong.extend_from_slice(&[0x03, 0x01, 0x01, 0x2A]);
    assert_eq!(decode_framed(KeyCoding::BerOid, &table(), &UAS_KEY, &wrong), Err(KlvError::SentinelMismatch));
    let mut short = UAS_KEY.to_vec();
    short.extend_from_slice(&[0x09, 0x01, 0x01, 0x2A]);
    assert_eq!(decode_framed(KeyCoding::BerOid, &table(), &UAS_KEY, &short), Err(KlvError::Malformed));
    assert_eq!(decode_framed(KeyCoding::BerOid, &table(), &UAS_KEY, &UAS_KEY[..8]), Err(KlvError::SentinelMismatch));
}

#[test]
fn series_split() {
    let s = [1u8, 2, 3, 4, 5, 6, 7];
    assert_eq!(split_fixed_series(&s, 3), vec![vec![1, 2, 3], vec![4, 5, 6]]);
    assert_eq!(split_fixed_series(&s, 8), Vec::<Vec<u8>>::new());
    let p = [2u8, 0xA, 0xB, 0, 1, 0xC, 5, 0xD];
    assert_eq!(split_prefixed_series(&p), vec![vec![0xA, 0xB], vec![], vec![0xC]]);
}

#[test]
fn leading_identifier_before_items() {
    let fields = vec![FieldSpec { key: 0x01, mandatory: true }];
    let (id, slots) = decode_with_leading_id(KeyCoding::BerOid, &fields, &[0x81, 0x00, 0x01, 0x01, 0x05]);
    assert_eq!(id, Some(128));
    assert_eq!(slots.unwrap(), vec![Some(vec![0x05])]);
    // the identifier stays when the items fail
    let (id, slots) = decode_with_leading_id(KeyCoding::BerOid, &fields, &[0x07, 0x02, 0x01, 0x05]);
    assert_eq!(id, Some(7));
    assert_eq!(slots, Err(KlvError::MissingMandatoryField { key: 0x01, index: 0 }));
    let (id, _) = decode_with_leading_id(KeyCoding::BerOid, &fields, &[0x81]);
    assert_eq!(id, None);
}
