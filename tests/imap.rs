use misb::dyadic::Dyadic;
use misb::imap::{ImapA, ImapB, ImapError, ImapFloat};
use misb::special::{SpecialValue, Value};

/// The exact binary fraction of a finite `f64`.
fn dy(x: f64) -> Dyadic {
    if x == 0.0 {
        return Dyadic { mant: 0, exp: 0 };
    }
    let bits = x.to_bits();
    let biased = ((bits >> 52) & 0x7ff) as i32;
    let frac = (bits & ((1u64 << 52) - 1)) as i128;
    let (mut m, mut e) = if biased == 0 { (frac, -1074) } else { (frac | (1i128 << 52), biased - 1075) };
    while m % 2 == 0 {
        m /= 2;
        e += 1;
    }
    Dyadic { mant: if x < 0.0 { -m } else { m }, exp: e }
}

fn num(x: f64) -> ImapFloat {
    if x.is_nan() {
        ImapFloat::NaN { negative: x.is_sign_negative() }
    } else if x.is_infinite() {
        ImapFloat::Infinite { negative: x < 0.0 }
    } else {
        ImapFloat::Finite(dy(x))
    }
}

/// The nearest `f64` of a value.
fn val(v: ImapFloat) -> f64 {
    match v {
        ImapFloat::Finite(d) => (d.mant as f64) * 2f64.powi(d.exp),
        ImapFloat::Infinite { negative } => {
            if negative {
                f64::NEG_INFINITY
            } else {
                f64::INFINITY
            }
        }
        ImapFloat::NaN { negative } => {
            if negative {
                -f64::NAN
            } else {
                f64::NAN
            }
        }
    }
}

fn imap_a(min: f64, max: f64, precision: f64) -> ImapA {
    ImapA::new(dy(min), dy(max), dy(precision)).unwrap()
}

fn imap_b(min: f64, max: f64, len: usize) -> ImapB {
    ImapB::new(dy(min), dy(max), len).unwrap()
}

#[test]
fn imap_a_test0() {
    let example = imap_a(-900.0, 19_000.0, 0.5);

    assert_eq!(example.to_imap(num(-900.0)).unwrap(), vec![0x00, 0x00, 0x00]);
    assert_eq!(val(example.from_imap(&vec![0x00_u8, 0x00, 0x00]).unwrap()), -900.0);

    assert_eq!(example.to_imap(num(10.0)).unwrap(), vec![0x03, 0x8E, 0x00]);
    assert_eq!(val(example.from_imap(&vec![0x03_u8, 0x8E, 0x00]).unwrap()), 10.0);

    assert_eq!(example.to_imap(num(0.0)).unwrap(), vec![0x03, 0x84, 0x00]);
    assert_eq!(val(example.from_imap(&vec![0x03_u8, 0x84, 0x00]).unwrap()), 0.0);

    assert_eq!(example.to_imap(num(f64::NEG_INFINITY)).unwrap(), vec![0xE8, 0x00, 0x00]);
    assert_eq!(val(example.from_imap(&vec![0xE8_u8, 0x00, 0x00]).unwrap()), f64::NEG_INFINITY);
}

#[test]
fn imap_b_test0() {
    let example = imap_b(0.1, 0.9, 2);

    assert_eq!(example.to_imap(num(0.1)).unwrap(), vec![0x00, 0x00]);
    assert_eq!(val(example.from_imap(&vec![0x00_u8, 0x00]).unwrap()), 0.1);

    assert_eq!(example.to_imap(num(0.5)).unwrap(), vec![0x33, 0x33]);
    assert_eq!(val(example.from_imap(&vec![0x33_u8, 0x33]).unwrap()), 0.499993896484375);

    assert_eq!(example.to_imap(num(0.9)).unwrap(), vec![0x66, 0x66]);
    assert_eq!(val(example.from_imap(&vec![0x66_u8, 0x66]).unwrap()), 0.89998779296875);

    assert_eq!(example.to_imap(num(f64::NEG_INFINITY)).unwrap(), vec![0xE8, 0x00]);
    assert_eq!(val(example.from_imap(&vec![0xE8_u8, 0x00]).unwrap()), f64::NEG_INFINITY);
}

#[test]
fn imap_a_test1() {
    let example = imap_a(0.0, 100.0, 1e-5);

    assert_eq!(example.to_imap(num(0.0)).unwrap(), vec![0x00, 0x00, 0x00, 0x00]);
    assert_eq!(val(example.from_imap(&vec![0x00, 0x00, 0x00, 0x00]).unwrap()), 0.0);

    assert_eq!(example.to_imap(num(10.1)).unwrap(), vec![0x0A, 0x19, 0x99, 0x99]);
    assert!(val(example.from_imap(&vec![0x0A, 0x19, 0x99, 0x99]).unwrap()) - 10.09999996 < 1e-8);

    assert_eq!(example.to_imap(num(20.2)).unwrap(), vec![0x14, 0x33, 0x33, 0x33]);
    assert!(val(example.from_imap(&vec![0x14, 0x33, 0x33, 0x33]).unwrap()) - 20.19999999 < 1e-8);

    assert_eq!(example.to_imap(num(30.3)).unwrap(), vec![0x1E, 0x4C, 0xCC, 0xCC]);
    assert!(val(example.from_imap(&vec![0x1E, 0x4C, 0xCC, 0xCC]).unwrap()) - 30.29999995 < 1e-8);

    assert_eq!(example.to_imap(num(40.4)).unwrap(), vec![0x28, 0x66, 0x66, 0x66]);
    assert!(val(example.from_imap(&vec![0x28, 0x66, 0x66, 0x66]).unwrap()) - 40.39999998 < 1e-8);

    assert_eq!(example.to_imap(num(50.5)).unwrap(), vec![0x32, 0x80, 0x00, 0x00]);
    assert_eq!(val(example.from_imap(&vec![0x32, 0x80, 0x00, 0x00]).unwrap()), 50.5);

    assert_eq!(example.to_imap(num(60.6)).unwrap(), vec![0x3C, 0x99, 0x99, 0x99]);
    assert!(val(example.from_imap(&vec![0x3C, 0x99, 0x99, 0x99]).unwrap()) - 60.59999996 < 1e-8);

    assert_eq!(example.to_imap(num(70.7)).unwrap(), vec![0x46, 0xB3, 0x33, 0x33]);
    assert!(val(example.from_imap(&vec![0x46, 0xB3, 0x33, 0x33]).unwrap()) - 70.69999999 < 1e-8);

    assert_eq!(example.to_imap(num(80.8)).unwrap(), vec![0x50, 0xCC, 0xCC, 0xCC]);
    assert!(val(example.from_imap(&vec![0x50, 0xCC, 0xCC, 0xCC]).unwrap()) - 80.79999995 < 1e-8);

    assert_eq!(example.to_imap(num(90.9)).unwrap(), vec![0x5A, 0xE6, 0x66, 0x66]);
    assert!(val(example.from_imap(&vec![0x5A, 0xE6, 0x66, 0x66]).unwrap()) - 90.89999998 < 1e-8);

    assert_eq!(example.to_imap(num(100.0)).unwrap(), vec![0x64, 0x00, 0x00, 0x00]);
    assert_eq!(val(example.from_imap(&vec![0x64, 0x00, 0x00, 0x00]).unwrap()), 100.0);

    assert_eq!(example.to_imap(num(f64::NAN)).unwrap(), vec![0xD0, 0x00, 0x00, 0x00]);
    assert!(val(example.from_imap(&vec![0xD0, 0x00, 0x00, 0x00]).unwrap()).is_nan());

    assert_eq!(example.to_imap(num(f64::INFINITY)).unwrap(), vec![0xC8, 0x00, 0x00, 0x00]);
    assert_eq!(val(example.from_imap(&vec![0xC8, 0x00, 0x00, 0x00]).unwrap()), f64::INFINITY);

    assert_eq!(example.to_imap(num(f64::NEG_INFINITY)).unwrap(), vec![0xE8, 0x00, 0x00, 0x00]);
    assert_eq!(val(example.from_imap(&vec![0xE8, 0x00, 0x00, 0x00]).unwrap()), f64::NEG_INFINITY);

    assert_eq!(example.to_imap(num(-1.0)).unwrap(), vec![0xE0, 0x00, 0x00, 0x00]);
    assert_eq!(example.from_imap(&vec![0xE0, 0x00, 0x00, 0x00]).unwrap_err(), ImapError::BelowMinimum);

    assert_eq!(example.to_imap(num(101.0)).unwrap(), vec![0xE1, 0x00, 0x00, 0x00]);
    assert_eq!(example.from_imap(&vec![0xE1, 0x00, 0x00, 0x00]).unwrap_err(), ImapError::AboveMaximum);
}

#[test]
fn imap_b_test1() {
    let example = imap_b(0.0, 100.0, 3);

    assert_eq!(example.to_imap(num(0.0)).unwrap(), vec![0x00, 0x00, 0x00]);
    assert_eq!(val(example.from_imap(&vec![0x00, 0x00, 0x00]).unwrap()), 0.0);

    assert_eq!(example.to_imap(num(10.1)).unwrap(), vec![0x0A, 0x19, 0x99]);
    assert!(val(example.from_imap(&vec![0x0A, 0x19, 0x99]).unwrap()) - 10.09999 < 1e-6);

    assert_eq!(example.to_imap(num(20.2)).unwrap(), vec![0x14, 0x33, 0x33]);
    assert!(val(example.from_imap(&vec![0x14, 0x33, 0x33]).unwrap()) - 20.2 < 1e-6);

    assert_eq!(example.to_imap(num(30.3)).unwrap(), vec![0x1E, 0x4C, 0xCC]);
    assert!(val(example.from_imap(&vec![0x1E, 0x4C, 0xCC]).unwrap()) - 30.29999 < 1e-6);

    assert_eq!(example.to_imap(num(40.4)).unwrap(), vec![0x28, 0x66, 0x66]);
    assert!(val(example.from_imap(&vec![0x28, 0x66, 0x66]).unwrap()) - 40.39999 < 1e-5);

    assert_eq!(example.to_imap(num(50.5)).unwrap(), vec![0x32, 0x80, 0x00]);
    assert_eq!(val(example.from_imap(&vec![0x32, 0x80, 0x00]).unwrap()), 50.5);

    assert_eq!(example.to_imap(num(60.6)).unwrap(), vec![0x3C, 0x99, 0x99]);
    assert!(val(example.from_imap(&vec![0x3C, 0x99, 0x99]).unwrap()) - 60.59999 < 1e-6);

    assert_eq!(example.to_imap(num(70.7)).unwrap(), vec![0x46, 0xB3, 0x33]);
    assert!(val(example.from_imap(&vec![0x46, 0xB3, 0x33]).unwrap()) - 70.7 < 1e-6);

    assert_eq!(example.to_imap(num(80.8)).unwrap(), vec![0x50, 0xCC, 0xCC]);
    assert!(val(example.from_imap(&vec![0x50, 0xCC, 0xCC]).unwrap()) - 80.79999 < 1e-6);

    assert_eq!(example.to_imap(num(90.9)).unwrap(), vec![0x5A, 0xE6, 0x66]);
    assert!(val(example.from_imap(&vec![0x5A, 0xE6, 0x66]).unwrap()) - 90.89999 < 1e-5);

    assert_eq!(example.to_imap(num(100.0)).unwrap(), vec![0x64, 0x00, 0x00]);
    assert_eq!(val(example.from_imap(&vec![0x64, 0x00, 0x00]).unwrap()), 100.0);

    assert_eq!(example.to_imap(num(f64::NAN)).unwrap(), vec![0xD0, 0x00, 0x00]);
    assert!(val(example.from_imap(&vec![0xD0, 0x00, 0x00]).unwrap()).is_nan());

    assert_eq!(example.to_imap(num(f64::INFINITY)).unwrap(), vec![0xC8, 0x00, 0x00]);
    assert_eq!(val(example.from_imap(&vec![0xC8, 0x00, 0x00]).unwrap()), f64::INFINITY);

    assert_eq!(example.to_imap(num(f64::NEG_INFINITY)).unwrap(), vec![0xE8, 0x00, 0x00]);
    assert_eq!(val(example.from_imap(&vec![0xE8, 0x00, 0x00]).unwrap()), f64::NEG_INFINITY);

    assert_eq!(example.to_imap(num(-1.0)).unwrap(), vec![0xE0, 0x00, 0x00]);
    assert_eq!(example.from_imap(&vec![0xE0, 0x00, 0x00]).unwrap_err(), ImapError::BelowMinimum);

    assert_eq!(example.to_imap(num(101.0)).unwrap(), vec![0xE1, 0x00, 0x00]);
    assert_eq!(example.from_imap(&vec![0xE1, 0x00, 0x00]).unwrap_err(), ImapError::AboveMaximum);
}

#[test]
fn imap_b_test2() {
    let example = imap_b(-9.9, 110.0, 3);

    assert_eq!(example.to_imap(num(-9.9)).unwrap(), vec![0x00, 0x00, 0x00]);
    assert!(val(example.from_imap(&vec![0x00, 0x00, 0x00]).unwrap()) - -9.90001 < 1e-6);

    assert_eq!(example.to_imap(num(0.225)).unwrap(), vec![0x0A, 0x20, 0x00]);
    assert!(val(example.from_imap(&vec![0x0A, 0x20, 0x00]).unwrap()) - 0.225 < 1e-6);

    assert_eq!(example.to_imap(num(10.35)).unwrap(), vec![0x14, 0x40, 0x00]);
    assert!(val(example.from_imap(&vec![0x14, 0x40, 0x00]).unwrap()) - 10.34999 < 1e-6);

    assert_eq!(example.to_imap(num(20.475)).unwrap(), vec![0x1E, 0x60, 0x00]);
    assert!(val(example.from_imap(&vec![0x1E, 0x60, 0x00]).unwrap()) - 20.47499 < 1e-6);

    assert_eq!(example.to_imap(num(30.6)).unwrap(), vec![0x28, 0x80, 0x00]);
    assert!(val(example.from_imap(&vec![0x28, 0x80, 0x00]).unwrap()) - 30.59999 < 1e-6);

    assert_eq!(example.to_imap(num(40.725)).unwrap(), vec![0x32, 0xA0, 0x00]);
    assert!(val(example.from_imap(&vec![0x32, 0xA0, 0x00]).unwrap()) - 40.72499 < 1e-6);

    assert_eq!(example.to_imap(num(50.85)).unwrap(), vec![0x3C, 0xC0, 0x00]);
    assert!(val(example.from_imap(&vec![0x3C, 0xC0, 0x00]).unwrap()) - 50.84999 < 1e-6);

    assert_eq!(example.to_imap(num(60.975)).unwrap(), vec![0x46, 0xE0, 0x00]);
    assert!(val(example.from_imap(&vec![0x46, 0xE0, 0x00]).unwrap()) - 60.97499 < 1e-6);

    assert_eq!(example.to_imap(num(71.1)).unwrap(), vec![0x51, 0x00, 0x00]);
    assert!(val(example.from_imap(&vec![0x51, 0x00, 0x00]).unwrap()) - 71.09999 < 1e-6);

    assert_eq!(example.to_imap(num(81.225)).unwrap(), vec![0x5B, 0x20, 0x00]);
    assert!(val(example.from_imap(&vec![0x5B, 0x20, 0x00]).unwrap()) - 81.22499 < 1e-6);

    assert_eq!(example.to_imap(num(91.35)).unwrap(), vec![0x65, 0x40, 0x00]);
    assert!(val(example.from_imap(&vec![0x65, 0x40, 0x00]).unwrap()) - 91.34999 < 1e-6);

    assert_eq!(example.to_imap(num(101.475)).unwrap(), vec![0x6F, 0x60, 0x00]);
    assert!(val(example.from_imap(&vec![0x6F, 0x60, 0x00]).unwrap()) - 101.47499 < 1e-6);

    assert_eq!(example.to_imap(num(110.0)).unwrap(), vec![0x77, 0xE6, 0x67]);
    assert!(val(example.from_imap(&vec![0x77, 0xE6, 0x67]).unwrap()) - 110.0 < 1e-6);

    assert_eq!(example.to_imap(num(0.0)).unwrap(), vec![0x09, 0xE6, 0x67]);
    assert!(val(example.from_imap(&vec![0x09, 0xE6, 0x67]).unwrap()) - 0.0 < 1e-6);

    assert_eq!(example.to_imap(num(f64::NAN)).unwrap(), vec![0xD0, 0x00, 0x00]);
    assert!(val(example.from_imap(&vec![0xD0, 0x00, 0x00]).unwrap()).is_nan());

    assert_eq!(example.to_imap(num(f64::INFINITY)).unwrap(), vec![0xC8, 0x00, 0x00]);
    assert_eq!(val(example.from_imap(&vec![0xC8, 0x00, 0x00]).unwrap()), f64::INFINITY);

    assert_eq!(example.to_imap(num(f64::NEG_INFINITY)).unwrap(), vec![0xE8, 0x00, 0x00]);
    assert_eq!(val(example.from_imap(&vec![0xE8, 0x00, 0x00]).unwrap()), f64::NEG_INFINITY);

    assert_eq!(example.to_imap(num(-100.0)).unwrap(), vec![0xE0, 0x00, 0x00]);
    assert_eq!(example.from_imap(&vec![0xE0, 0x00, 0x00]).unwrap_err(), ImapError::BelowMinimum);

    assert_eq!(example.to_imap(num(121.0)).unwrap(), vec![0xE1, 0x00, 0x00]);
    assert_eq!(example.from_imap(&vec![0xE1, 0x00, 0x00]).unwrap_err(), ImapError::AboveMaximum);
}

#[test]
fn imap_b_straddling_zero_decodes_exactly() {
    // -9.9 .. 110 on 3 bytes: s_f = 2^16, and 0.0 encodes to 0x09E667
    let example = imap_b(-9.9, 110.0, 3);
    let zero = example.from_imap(&[0x09, 0xE6, 0x67]).unwrap();
    assert_eq!(val(zero), 0.0);
    let v = example.from_imap(&[0x0A, 0x20, 0x00]).unwrap();
    assert_eq!(val(v), 14745.0 / 65536.0);
}

#[test]
fn imap_construction_errors() {
    assert!(matches!(
        ImapB::new(dy(1.0), dy(1.0), 2),
        Err(ImapError::InvalidInputArgs { len: Some(2), precision: None, .. })
    ));
    assert!(matches!(ImapB::new(dy(2.0), dy(1.0), 2), Err(ImapError::InvalidInputArgs { .. })));
    assert!(matches!(ImapB::new(dy(0.0), dy(1.0), 0), Err(ImapError::InvalidInputArgs { .. })));
    assert_eq!(ImapB::new(dy(0.0), dy(1.0), 16).unwrap_err(), ImapError::InitError);
    assert!(matches!(
        ImapA::new(dy(0.0), dy(1.0), dy(2.0)),
        Err(ImapError::InvalidInputArgs { precision: Some(_), len: None, .. })
    ));
    assert!(matches!(ImapA::new(dy(0.0), dy(1.0), dy(-0.5)), Err(ImapError::InvalidInputArgs { .. })));
}

#[test]
fn imap_a_derives_length_from_precision() {
    // ceil((ceil(log2 19900) - floor(log2 0.5) + 1) / 8) = ceil(17 / 8) = 3
    assert_eq!(imap_a(-900.0, 19_000.0, 0.5).to_imap(num(0.0)).unwrap().len(), 3);
    // ceil((7 + 17 + 1) / 8) = 4
    assert_eq!(imap_a(0.0, 100.0, 1e-5).to_imap(num(0.0)).unwrap().len(), 4);
    assert_eq!(imap_a(0.0, 100.0, 1.0).to_imap(num(0.0)).unwrap().len(), 1);
}

#[test]
fn imap_decode_errors() {
    let example = imap_b(0.0, 100.0, 3);
    assert_eq!(
        example.from_imap(&[0x00, 0x00]).unwrap_err(),
        ImapError::LengthMismatch { expected: 3, found: 2 }
    );
    assert_eq!(example.from_imap(&[0xE2, 0x00, 0x00]).unwrap_err(), ImapError::ReservedValue);
    assert_eq!(example.from_imap(&[0xC0, 0x12, 0x34]).unwrap_err(), ImapError::UserDefinedValue);
    assert_eq!(example.from_imap(&[0xE0, 0x00, 0x01]).unwrap_err(), ImapError::CannotParseSpecialValue);
    // a leading 0b10 is a normal value for the mapping
    assert!(matches!(example.from_imap(&[0xA0, 0x00, 0x00]).unwrap(), ImapFloat::Finite(_)));
}

#[test]
fn imap_user_coders() {
    let example = imap_b(0.0, 100.0, 2);
    let dec = |_: &[u8]| ImapFloat::Finite(Dyadic { mant: 42, exp: 0 });
    assert_eq!(val(example.from_imap_with_decoder(&[0xC3, 0x01], &dec).unwrap()), 42.0);
    assert_eq!(val(example.from_imap_with_decoder(&[0x32, 0x80], &dec).unwrap()), 50.5);
    let enc = |_: ImapFloat| vec![0xC1u8, 0x00];
    assert_eq!(example.to_imap_with_encoder(num(50.0), &enc).unwrap(), vec![0xC1, 0x00]);
    assert_eq!(example.to_imap_with_encoder(num(-1.0), &enc).unwrap(), vec![0xE0, 0x00]);
    assert_eq!(example.to_imap_with_encoder(num(f64::NAN), &enc).unwrap(), vec![0xD0, 0x00]);

    let coded = ImapB::new_with_user_defined_xcoders(dy(0.0), dy(100.0), 2, Some(enc), Some(dec)).unwrap();
    assert_eq!(coded.to_imap_with_encoder(num(50.0)).unwrap(), vec![0xC1, 0x00]);
    assert_eq!(coded.to_imap_with_encoder(num(101.0)).unwrap(), vec![0xE1, 0x00]);
    assert_eq!(val(coded.from_imap(&[0xC3, 0x01]).unwrap()), 42.0);
    assert_eq!(val(coded.from_imap(&[0x32, 0x80]).unwrap()), 50.5);

    let plain = ImapA::new_with_user_defined_xcoders(dy(0.0), dy(100.0), dy(1.0), Some(enc), None::<fn(&[u8]) -> ImapFloat>)
        .unwrap();
    assert_eq!(plain.to_imap_with_encoder(num(1.0)).unwrap(), vec![0xC1, 0x00]);
    assert_eq!(plain.from_imap(&[0xC3]).unwrap_err(), ImapError::UserDefinedValue);
    assert_eq!(plain.imapb().byte_len(), 1);
    assert!(ImapB::new_with_user_defined_xcoders(dy(1.0), dy(0.0), 2, Some(enc), Some(dec)).is_err());
}

#[test]
fn imap_round_trip_on_grid_and_bounds() {
    let example = imap_b(0.1, 0.9, 2);
    // the boundaries map to normal values
    let lo = example.to_imap(num(0.1)).unwrap();
    let hi = example.to_imap(num(0.9)).unwrap();
    assert_ne!(lo[0] & 0xC0, 0xC0);
    assert_ne!(hi[0] & 0xC0, 0xC0);
    // below and above
    assert_eq!(example.to_imap(num(0.09)).unwrap(), vec![0xE0, 0x00]);
    assert_eq!(example.from_imap(&[0xE0, 0x00]).unwrap_err(), ImapError::BelowMinimum);
    assert_eq!(example.to_imap(num(0.91)).unwrap(), vec![0xE1, 0x00]);
    assert_eq!(example.from_imap(&[0xE1, 0x00]).unwrap_err(), ImapError::AboveMaximum);
    // infinities and NaN
    assert_eq!(val(example.from_imap(&example.to_imap(num(f64::INFINITY)).unwrap()).unwrap()), f64::INFINITY);
    let nan = example.from_imap(&example.to_imap(num(f64::NAN)).unwrap()).unwrap();
    assert_eq!(nan, ImapFloat::NaN { negative: false });
    // a value on the grid comes back exactly, another within one step
    let wide = imap_b(0.0, 100.0, 3);
    let on_grid = 50.5 + 3.0 / 65536.0;
    let back = val(wide.from_imap(&wide.to_imap(num(on_grid)).unwrap()).unwrap());
    assert_eq!(back, on_grid);
    let back = val(example.from_imap(&example.to_imap(num(0.5)).unwrap()).unwrap());
    assert!(back <= 0.5 && 0.5 - back < 1.0 / 32768.0);
}

#[test]
fn special_values_classify() {
    assert_eq!(SpecialValue::from_imap(&[0xE0, 0x00]), Ok(SpecialValue::ImapBelowMinimum));
    assert_eq!(SpecialValue::from_imap(&[0xE1, 0x00]), Ok(SpecialValue::ImapAboveMaximum));
    assert_eq!(SpecialValue::from_imap(&[0xCB, 0x00]), Ok(SpecialValue::PosInfinity));
    assert_eq!(SpecialValue::from_imap(&[0xE8, 0x00]), Ok(SpecialValue::NegInfinity));
    assert_eq!(SpecialValue::from_imap(&[0xC8, 0x01]), Err(ImapError::CannotParseSpecialValue));
    assert_eq!(SpecialValue::from_imap(&[0xC5, 0xFF]), Ok(SpecialValue::UserDefined));
    assert_eq!(SpecialValue::from_imap(&[0xD0, 0x12]), Ok(SpecialValue::PosQuietNan));
    assert_eq!(SpecialValue::from_imap(&[0xF0, 0x00]), Ok(SpecialValue::PosQuietNan));
    assert_eq!(SpecialValue::from_imap(&[0x81, 0x00]), Ok(SpecialValue::ReservedSpecial));
    assert_eq!(SpecialValue::from_imap(&[0x80, 0x01]), Ok(SpecialValue::ReservedSpecial));
    assert_eq!(SpecialValue::from_imap(&[0xE4, 0x00]), Ok(SpecialValue::ReservedMisbDefined));
    assert_eq!(SpecialValue::from_imap(&[0x80, 0x00]), Err(ImapError::CannotParseSpecialValue));
    assert_eq!(SpecialValue::NegInfinity.to_imap(&3), vec![0xE8, 0x00, 0x00]);
    assert_eq!(Value::Special(SpecialValue::ImapAboveMaximum).to_imap(2), vec![0xE1, 0x00]);
    assert_eq!(Value::Normal(vec![1, 2, 3]).to_imap(2), vec![1, 2, 3]);
}

#[test]
fn imap_a_checks_arguments_before_representation() {
    // precision above a range far too wide for the working integers
    assert!(matches!(
        ImapA::new(dy(0.0), dy(2f64.powi(200)), dy(2f64.powi(300))),
        Err(ImapError::InvalidInputArgs { len: None, precision: Some(_), .. })
    ));
    assert!(matches!(
        ImapA::new(dy(1.0), dy(2f64.powi(200)), dy(2f64.powi(300))),
        Err(ImapError::InvalidInputArgs { .. })
    ));
    // the precision is valid, but the range is not representable
    assert_eq!(ImapA::new(dy(1.0), dy(2f64.powi(200)), dy(1.0)).unwrap_err(), ImapError::InitError);
    // precision equal to the range is invalid, just below it is not
    assert!(matches!(ImapA::new(dy(0.1), dy(0.9), dy(0.9 - 0.1)), Err(ImapError::InvalidInputArgs { .. })));
    assert!(ImapA::new(dy(0.5), dy(1.0), dy(0.25)).is_ok());
    assert!(matches!(
        ImapA::new(dy(0.5), dy(1.0), dy(0.5)),
        Err(ImapError::InvalidInputArgs { .. })
    ));
    // far-apart exponents: the precision is checked exactly first
    assert!(matches!(ImapA::new(dy(-1e-30), dy(1.0), dy(2.0)), Err(ImapError::InvalidInputArgs { .. })));
    assert_eq!(ImapA::new(dy(-1e-30), dy(1.0), dy(0.5)).unwrap_err(), ImapError::InitError);
    assert!(matches!(ImapA::new(dy(1e300), dy(2e300), dy(1e301)), Err(ImapError::InvalidInputArgs { .. })));
}

#[test]
fn normal_value_ignores_length() {
    assert_eq!(Value::Normal(vec![7, 8]).to_imap(0), vec![7, 8]);
}
