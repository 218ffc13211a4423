use misb::dyadic::Dyadic;
use misb::imap::{ImapB, ImapError, ImapFloat};
use misb::klv::KlvError;
use misb::misb0903::{
    imapb_parser, to_confidence, to_hae, to_hvfov, to_ll_offset, Color, DetectionStatus, EnuMeasurements, Location,
    Misb0903Tables, Motion, MotionValues, PixelPosition, PrimitiveError,
};
use misb::records::{Misb0903Algorithm, Misb0903Ontology};
use misb::LengthBytes;

fn val(v: ImapFloat) -> f64 {
    match v {
        ImapFloat::Finite(d) => (d.mant as f64) * 2f64.powi(d.exp),
        _ => f64::NAN,
    }
}

#[test]
fn tables_and_imap_fields() {
    let t = Misb0903Tables::new().unwrap();
    // [0, 180] on two bytes: s_f = 2^7, so 0x4000 is 128 degrees
    assert_eq!(val(to_hvfov(&t, &[0x40, 0x00]).unwrap()), 128.0);
    assert_eq!(to_hvfov(&t, &[0x40]), Err(PrimitiveError::Truncated));
    assert_eq!(to_hvfov(&t, &[0xE0, 0x00]), Err(PrimitiveError::Imap(ImapError::BelowMinimum)));
    assert!(val(to_ll_offset(&t, &[0x00, 0x00, 0x00]).unwrap()) < -19.19);
    assert_eq!(val(to_hae(&t, &[0x00, 0x00]).unwrap()), -900.0);
    let imap = ImapB::new(Dyadic { mant: 0, exp: 0 }, Dyadic { mant: 25, exp: 2 }, 1).unwrap();
    assert_eq!(val(imapb_parser(&imap, 1, &[0x20]).unwrap()), 32.0);
    assert_eq!(
        imapb_parser(&imap, 2, &[0x20, 0x00]),
        Err(PrimitiveError::Imap(ImapError::LengthMismatch { expected: 1, found: 2 }))
    );
    assert_eq!(imapb_parser(&imap, 2, &[0x20]), Err(PrimitiveError::Truncated));
    assert_eq!(val(to_confidence(1, &[0x20]).unwrap()), 32.0);
    assert_eq!(to_confidence(0, &[0x20]), Err(PrimitiveError::Imap(ImapError::InvalidInputArgs {
        min: Dyadic { mant: 0, exp: 0 },
        max: Dyadic { mant: 25, exp: 2 },
        len: Some(0),
        precision: None,
    })));
}

#[test]
fn composite_values() {
    let t = Misb0903Tables::new().unwrap();
    let enu = EnuMeasurements::decode(&t, &[0, 0, 0, 0, 0, 0, 0, 0, 0, 0, 0, 0]).unwrap();
    assert_eq!(val(enu.sig_east), 0.0);
    assert_eq!(val(enu.rho_north_up), -1.0);
    assert_eq!(EnuMeasurements::decode(&t, &[0; 11]), Err(PrimitiveError::Truncated));
    assert_eq!(EnuMeasurements::length_bytes(), 12);
    let loc = Location::decode(&t, &[0u8; 22]).unwrap();
    assert_eq!(val(loc.latitude), -90.0);
    assert_eq!(val(loc.longitude), -180.0);
    assert_eq!(val(loc.hae), -900.0);
    assert_eq!(Location::length_bytes(), 22);
    let m = MotionValues::decode(&t, &[0u8; 18]).unwrap();
    assert_eq!(val(m.up), -900.0);
    assert_eq!(MotionValues::length_bytes(), 18);
    assert!(matches!(Motion::decode_velocity(&t, &[0u8; 18]), Ok(Motion::Velocity(_))));
    assert!(matches!(Motion::decode_acceleration(&t, &[0u8; 18]), Ok(Motion::Acceleration(_))));
}

#[test]
fn pixels_colors_status() {
    assert_eq!(Color::decode(&[1, 2, 3]), Ok(Color { red: 1, green: 2, blue: 3 }));
    assert_eq!(Color::decode(&[1, 2]), Err(PrimitiveError::Truncated));
    let p = PixelPosition::decode(3, &[0x00, 0x01, 0x00]).unwrap();
    assert_eq!(p.num, 256);
    assert_eq!(p.to_rc(100), (3, 25400));
    assert_eq!(PixelPosition::new(u32::MAX - 1).to_rc(2), (u32::MAX / 2 + 1, u32::MAX - 1));
    assert_eq!(PixelPosition::new(10).to_rc(1 << 31), (1, u32::MAX));
    assert_eq!(DetectionStatus::decode(&[3]), Ok(DetectionStatus::ActiveStopped));
    assert_eq!(DetectionStatus::decode(&[5]), Err(PrimitiveError::Invalid));
    assert_eq!(DetectionStatus::ActiveCoasting.encode(), vec![4]);
}

#[test]
fn algorithm_record() {
    let body = vec![0x01, 0x02, 0x01, 0x00, 0x02, 0x03, b'a', b'b', b'c', 0x05, 0x01, 0x09, 0x07, 0x01, 0x00];
    let a = Misb0903Algorithm::decode(&body).unwrap();
    assert_eq!(a.algorithm_id, 256);
    assert_eq!(a.name.as_deref(), Some("abc"));
    assert_eq!(a.version, None);
    assert_eq!(a.n_frames, Some(9));
    // text that is not UTF-8 is left out
    let bad = vec![0x01, 0x01, 0x01, 0x02, 0x01, 0xFF];
    assert_eq!(Misb0903Algorithm::decode(&bad).unwrap().name, None);
    assert_eq!(
        Misb0903Algorithm::decode(&[0x02, 0x01, b'x']),
        Err(KlvError::MissingMandatoryField { key: 1, index: 0 })
    );
    // an identifier longer than eight bytes does not decode
    let long = vec![0x01, 0x09, 1, 2, 3, 4, 5, 6, 7, 8, 9];
    assert_eq!(Misb0903Algorithm::decode(&long), Err(KlvError::MissingMandatoryField { key: 1, index: 0 }));
}

#[test]
fn ontology_record() {
    let body = vec![0x01, 0x01, 0x07, 0x03, 0x02, b'o', b'i', 0x04, 0x01, b'e', 0x06, 0x01, b'L'];
    let o = Misb0903Ontology::decode(&body).unwrap();
    assert_eq!(o.ontology_id, 7);
    assert_eq!(o.ontology_iri, "oi");
    assert_eq!(o.entity_iri, "e");
    assert_eq!(o.label.as_deref(), Some("L"));
    assert_eq!(o.parent_id, None);
    let missing = vec![0x01, 0x01, 0x07, 0x03, 0x02, b'o', b'i'];
    assert_eq!(Misb0903Ontology::decode(&missing), Err(KlvError::MissingMandatoryField { key: 4, index: 3 }));
}
