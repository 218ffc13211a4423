use chrono::TimeZone;
use misb::misb0601::{
    from_icing_detected, from_precision_timestamp, from_target_track_gate_hw, split_micros, to_alt, to_icing_detected,
    to_lat, to_lon, to_offset_ll, to_platform_pitch_angle, to_platform_vertical_speed, to_precision_timestamp,
    to_sensor_relative_elevation_angle, to_target_track_gate_hw, to_wind_speed, FieldError, GenericFlagData, Icing,
    IrPolarity, Scaled, SlantRangeSource,
};

fn utc(micros: u64) -> chrono::DateTime<chrono::Utc> {
    let (secs, nanos) = split_micros(micros);
    chrono::DateTime::from_timestamp(secs as i64, nanos).unwrap()
}

#[test]
fn precision_timestamp_decodes() {
    let micros = to_precision_timestamp(&0x0004_59F4_A6AA_4AA8u64.to_be_bytes()).unwrap();
    assert_eq!(micros, 0x0004_59F4_A6AA_4AA8);
    let expected = chrono::Utc.with_ymd_and_hms(2008, 10, 24, 0, 13, 29).unwrap() + chrono::Duration::milliseconds(913);
    assert_eq!(utc(micros), expected);
    let micros = to_precision_timestamp(&0x0003_8244_30F6_CE40u64.to_be_bytes()).unwrap();
    assert_eq!(utc(micros), chrono::Utc.with_ymd_and_hms(2001, 4, 19, 4, 25, 21).unwrap());
    assert_eq!(to_precision_timestamp(&[0, 1, 2]), Err(FieldError::Truncated));
}

#[test]
fn precision_timestamp_encodes() {
    let t = chrono::Utc.with_ymd_and_hms(2008, 10, 24, 0, 13, 29).unwrap() + chrono::Duration::milliseconds(913);
    let bytes = from_precision_timestamp(t.timestamp() as u64, t.timestamp_subsec_nanos());
    assert_eq!(bytes, vec![0x00, 0x04, 0x59, 0xF4, 0xA6, 0xAA, 0x4A, 0xA8]);
    assert_eq!(split_micros(1_500_001), (1, 500_001_000));
}

#[test]
fn scaled_fields() {
    assert_eq!(to_lat(&[0x80, 0, 0, 0]), Err(FieldError::Reserved));
    assert_eq!(
        to_lat(&[0x7F, 0xFF, 0xFF, 0xFF]).unwrap(),
        Scaled { raw: 2147483647, num: 180, den: 4294967294, offset: 0 }
    );
    assert_eq!(to_lon(&[0xFF, 0xFF, 0xFF, 0xFE]).unwrap().raw, -2);
    assert_eq!(to_lon(&[0x00, 0x01]), Err(FieldError::Truncated));
    assert_eq!(to_alt(&[0xFF, 0xFF]).unwrap(), Scaled { raw: 65535, num: 19900, den: 65535, offset: 900 });
    assert_eq!(to_platform_pitch_angle(&[0x80, 0x00]), Err(FieldError::Reserved));
    assert_eq!(to_platform_pitch_angle(&[0xFF, 0xFF]).unwrap().raw, -1);
    assert_eq!(to_platform_vertical_speed(&[0x80, 0x00]), Err(FieldError::Reserved));
    // fields without a reserved pattern keep the most negative value
    assert_eq!(to_offset_ll(&[0x80, 0x00]).unwrap().raw, -32768);
    assert_eq!(to_sensor_relative_elevation_angle(&[0x80, 0, 0, 0]).unwrap().raw, -2147483648);
    assert_eq!(to_wind_speed(&[0xFF]).unwrap(), Scaled { raw: 255, num: 100, den: 255, offset: 0 });
}

#[test]
fn track_gate_and_icing() {
    assert_eq!(to_target_track_gate_hw(&[0x7F]), Ok(254));
    assert_eq!(from_target_track_gate_hw(254), vec![0x00, 0x7F]);
    assert_eq!(to_icing_detected(&[2]), Ok(Icing::IcingDetected));
    assert_eq!(to_icing_detected(&[3]), Err(FieldError::Invalid));
    assert_eq!(to_icing_detected(&[]), Err(FieldError::Truncated));
    assert_eq!(from_icing_detected(Icing::NoIcingDetected), 1);
}

#[test]
fn generic_flags() {
    let f = GenericFlagData::decode(&[0b0010_0101]).unwrap();
    assert!(f.laser_range_on);
    assert!(!f.auto_track_on);
    assert_eq!(f.ir_polarity, IrPolarity::BlackHot);
    assert_eq!(f.icing_status, Icing::NoIcingDetected);
    assert_eq!(f.slant_range_source, SlantRangeSource::Calculated);
    assert!(f.is_image_invalid);
    let g = GenericFlagData::decode(&[0b0001_1010]).unwrap();
    assert!(g.auto_track_on);
    assert_eq!(g.ir_polarity, IrPolarity::WhiteHot);
    assert_eq!(g.icing_status, Icing::IcingDetected);
    assert_eq!(g.slant_range_source, SlantRangeSource::Measured);
    assert_eq!(GenericFlagData::decode(&[]), Err(FieldError::Truncated));
}
