use workout_gpx_rs::Activity;
use workout_gpx_rs::GeoPoint;
use workout_gpx_rs::Record;
use workout_gpx_rs::SCALE;
use workout_gpx_rs::Workout;

fn workout_with(points: Vec<Option<GeoPoint>>) -> Workout {
    let records = points
        .into_iter()
        .map(|gp| Record { geopoint: gp, ..Default::default() })
        .collect();
    Workout { activity: Activity::Running, timestamp: 0, records }
}

#[test]
fn zero_records_empty_list_literal() {
    let w = workout_with(vec![]);
    assert_eq!(w.geopoly(), "'[ ]'");
}

#[test]
fn two_records_in_order() {
    let w = workout_with(vec![
        Some(GeoPoint { lat: 1 * SCALE, lng: 2 * SCALE }),
        Some(GeoPoint { lat: 3 * SCALE, lng: 4 * SCALE }),
    ]);
    assert_eq!(w.geopoly(), "'[ [1,2],[3,4]]'");
}

#[test]
fn fractional_and_negative_coordinates() {
    let w = workout_with(vec![
        Some(GeoPoint { lat: 471234567, lng: -5000000 }),
        Some(GeoPoint { lat: 0, lng: 0 }),
    ]);
    assert_eq!(w.geopoly(), "'[ [47.1234567,-0.5],[0,0]]'");
}

#[test]
fn missing_position_uses_placeholder() {
    let w = workout_with(vec![None, Some(GeoPoint { lat: SCALE, lng: SCALE })]);
    assert_eq!(w.geopoly(), "'[ [0.0,0.0],[1,1]]'");
}

#[test]
fn invalid_records_still_encoded() {
    // the polygon policy is independent of the row validator: a record
    // failing validation still contributes its pair
    let rec = Record {
        geopoint: Some(GeoPoint { lat: 0, lng: 0 }),
        ..Default::default()
    };
    assert!(!rec.validate());
    let w = Workout { activity: Activity::Cycling, timestamp: 5, records: vec![rec] };
    assert_eq!(w.geopoly(), "'[ [0,0]]'");
}
