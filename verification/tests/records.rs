use workout_gpx_rs::GeoPoint;
use workout_gpx_rs::ParseError;
use workout_gpx_rs::Record;
use workout_gpx_rs::SCALE;
use workout_gpx_rs::parse_fixed;
use workout_gpx_rs::parse_i32;

fn base_record() -> Record {
    Record {
        geopoint: Some(GeoPoint { lat: 47 * SCALE, lng: 9 * SCALE }),
        ..Default::default()
    }
}

#[test]
fn near_origin_invalid_whatever_else_is_set() {
    // within 1e-7 of (0,0): one fixed-point step on one axis
    for gp in [
        GeoPoint { lat: 0, lng: 0 },
        GeoPoint { lat: 1, lng: 0 },
        GeoPoint { lat: -1, lng: 0 },
        GeoPoint { lat: 0, lng: 1 },
        GeoPoint { lat: 0, lng: -1 },
    ] {
        let rec = Record {
            geopoint: Some(gp),
            elevation: Some(100 * SCALE),
            heartrate: Some(90),
            timestamp: Some(1704164645),
            ..Default::default()
        };
        assert!(!rec.validate());
    }
}

#[test]
fn just_outside_epsilon_is_valid() {
    // (2e-7, 0) lies outside the closed 1e-7 disc
    let rec = Record {
        geopoint: Some(GeoPoint { lat: 2, lng: 0 }),
        heartrate: Some(90),
        ..Default::default()
    };
    assert!(rec.validate());
    // (1e-7, 1e-7) has norm sqrt(2)*1e-7 > 1e-7
    let rec = Record {
        geopoint: Some(GeoPoint { lat: 1, lng: 1 }),
        heartrate: Some(90),
        ..Default::default()
    };
    assert!(rec.validate());
}

#[test]
fn all_sensors_empty_is_invalid() {
    let rec = base_record();
    assert!(!rec.validate());
}

#[test]
fn exactly_one_sensor_field_is_valid() {
    for rec in [
        Record { elevation: Some(SCALE), ..base_record() },
        Record { timestamp: Some(1704164645), ..base_record() },
        Record { heartrate: Some(95), ..base_record() },
        Record { temperature: Some(21), ..base_record() },
        Record { speed: Some(SCALE / 2), ..base_record() },
        Record { course: Some(180 * SCALE), ..base_record() },
        Record { hAcc: Some(SCALE), ..base_record() },
        Record { vAcc: Some(SCALE), ..base_record() },
    ] {
        assert!(rec.validate());
    }
}

#[test]
fn missing_geopoint_not_null_island() {
    let rec = Record { heartrate: Some(95), ..Default::default() };
    assert!(rec.validate());
}

#[test]
fn load_data_assigns_by_element_name() {
    let mut rec = Record::default();
    assert_eq!(rec.load_data(b"ele", b"143.6"), Ok(()));
    assert_eq!(rec.elevation, Some(1436000000));
    assert_eq!(rec.load_data(b"hr", b"95"), Ok(()));
    assert_eq!(rec.heartrate, Some(95));
    assert_eq!(rec.load_data(b"atemp", b"-3"), Ok(()));
    assert_eq!(rec.temperature, Some(-3));
    assert_eq!(rec.load_data(b"time", b"2024-01-02T03:04:05.000Z"), Ok(()));
    assert_eq!(rec.timestamp, Some(1704164645));
    assert_eq!(rec.load_data(b"speed", b"2.5"), Ok(()));
    assert_eq!(rec.speed, Some(25000000));
    assert_eq!(rec.load_data(b"course", b"180"), Ok(()));
    assert_eq!(rec.course, Some(180 * SCALE));
    assert_eq!(rec.load_data(b"hAcc", b"3.2"), Ok(()));
    assert_eq!(rec.hAcc, Some(32000000));
    assert_eq!(rec.load_data(b"vAcc", b"4.8"), Ok(()));
    assert_eq!(rec.vAcc, Some(48000000));
}

#[test]
fn load_data_ignores_unknown_names() {
    let mut rec = Record::default();
    assert_eq!(rec.load_data(b"name", b"Morning Run"), Ok(()));
    assert_eq!(rec, Record::default());
}

#[test]
fn load_data_rejects_bad_text() {
    let mut rec = Record::default();
    assert_eq!(rec.load_data(b"hr", b"fast"), Err(ParseError::BadNumber));
    assert_eq!(rec.load_data(b"ele", b""), Err(ParseError::BadNumber));
    assert_eq!(rec.load_data(b"time", b"noon"), Err(ParseError::BadTimestamp));
}

#[test]
fn parse_i32_exact_values() {
    assert_eq!(parse_i32(b"95"), Ok(95));
    assert_eq!(parse_i32(b"-12"), Ok(-12));
    assert_eq!(parse_i32(b"+7"), Ok(7));
    assert_eq!(parse_i32(b"2147483647"), Ok(i32::MAX));
    assert_eq!(parse_i32(b"-2147483648"), Ok(i32::MIN));
    assert_eq!(parse_i32(b"2147483648"), Err(ParseError::BadNumber));
    assert_eq!(parse_i32(b""), Err(ParseError::BadNumber));
    assert_eq!(parse_i32(b"12.5"), Err(ParseError::BadNumber));
}

#[test]
fn parse_fixed_exact_values() {
    assert_eq!(parse_fixed(b"47.1"), Ok(471000000));
    assert_eq!(parse_fixed(b"-0.5"), Ok(-5000000));
    assert_eq!(parse_fixed(b"9"), Ok(9 * SCALE));
    assert_eq!(parse_fixed(b"0.0000001"), Ok(1));
    assert_eq!(parse_fixed(b".5"), Ok(5000000));
    assert_eq!(parse_fixed(b"1."), Ok(SCALE));
    // the eighth fractional digit is truncated
    assert_eq!(parse_fixed(b"0.00000015"), Ok(1));
    assert_eq!(parse_fixed(b"abc"), Err(ParseError::BadNumber));
    assert_eq!(parse_fixed(b"1.2.3"), Err(ParseError::BadNumber));
    assert_eq!(parse_fixed(b"."), Err(ParseError::BadNumber));
    assert_eq!(parse_fixed(b""), Err(ParseError::BadNumber));
}
