use workout_gpx_rs::Activity;
use workout_gpx_rs::GeoPoint;
use workout_gpx_rs::Record;
use workout_gpx_rs::SCALE;
use workout_gpx_rs::Store;
use workout_gpx_rs::Workout;

fn sample(ds: i64, ts: i64, lat: i64) -> Record {
    Record {
        activity: Some(Activity::Running),
        ds: Some(ds),
        timestamp: Some(ts),
        geopoint: Some(GeoPoint { lat, lng: 9 * SCALE }),
        heartrate: Some(95),
        ..Default::default()
    }
}

fn workout(a: Activity, ts: i64, n: i64) -> Workout {
    let records = (0..n)
        .map(|k| {
            let mut rec = sample(ts, ts + k, 47 * SCALE + k);
            rec.activity = Some(a);
            rec
        })
        .collect();
    Workout { activity: a, timestamp: ts, records }
}

fn counts(s: &Store) -> (usize, usize, usize) {
    (s.headers.len(), s.geos.len(), s.records.len())
}

#[test]
fn ingest_writes_one_header_one_polygon_and_record_rows() {
    let mut s = Store::new();
    s.ingest_workout(&workout(Activity::Running, 1704164645, 3));
    assert_eq!(counts(&s), (1, 1, 3));
    assert_eq!(s.headers[0].activity, Activity::Running);
    assert_eq!(s.headers[0].ds, 1704164645);
    assert_eq!(s.headers[0].record_locations, s.geos[0].shape);
    assert_eq!(s.records[0].heartrate, Some(95));
    assert_eq!(s.records[0].ds, Some(1704164645));
}

#[test]
fn ingest_twice_is_idempotent() {
    let w = workout(Activity::Running, 1704164645, 3);
    let mut s = Store::new();
    s.ingest_workout(&w);
    s.ingest_workout(&w);
    assert_eq!(counts(&s), (1, 1, 3));
}

#[test]
fn invalid_records_get_no_row() {
    let mut w = workout(Activity::Running, 100, 2);
    // a null-island fix and an empty placeholder: both excluded
    w.records.push(Record {
        activity: Some(Activity::Running),
        ds: Some(100),
        timestamp: Some(300),
        geopoint: Some(GeoPoint { lat: 0, lng: 0 }),
        heartrate: Some(95),
        ..Default::default()
    });
    w.records.push(Record {
        activity: Some(Activity::Running),
        ds: Some(100),
        timestamp: None,
        geopoint: Some(GeoPoint { lat: SCALE, lng: SCALE }),
        ..Default::default()
    });
    let mut s = Store::new();
    s.ingest_workout(&w);
    assert_eq!(counts(&s), (1, 1, 2));
}

#[test]
fn duplicate_sample_key_within_a_workout_is_one_row() {
    let mut w = workout(Activity::Running, 100, 1);
    let dup = w.records[0];
    w.records.push(dup);
    let mut s = Store::new();
    s.ingest_workout(&w);
    assert_eq!(counts(&s), (1, 1, 1));
}

#[test]
fn ingestion_order_does_not_change_row_counts() {
    // per-workout transactions are serialized by the storage engine:
    // any concurrency limit yields some serialization order, and all
    // orders end in the same contents
    let w1 = workout(Activity::Running, 100, 3);
    let w2 = workout(Activity::Cycling, 200, 2);
    let w3 = workout(Activity::Running, 300, 4);
    let mut fwd = Store::new();
    fwd.ingest_workout(&w1);
    fwd.ingest_workout(&w2);
    fwd.ingest_workout(&w3);
    let mut rev = Store::new();
    rev.ingest_workout(&w3);
    rev.ingest_workout(&w2);
    rev.ingest_workout(&w1);
    assert_eq!(counts(&fwd), (3, 3, 9));
    assert_eq!(counts(&rev), (3, 3, 9));
    // the same header keys are present either way
    let mut fwd_keys: Vec<(String, i64)> =
        fwd.headers.iter().map(|h| (h.activity.label().to_owned(), h.ds)).collect();
    let mut rev_keys: Vec<(String, i64)> =
        rev.headers.iter().map(|h| (h.activity.label().to_owned(), h.ds)).collect();
    fwd_keys.sort();
    rev_keys.sort();
    assert_eq!(fwd_keys, rev_keys);
}

#[test]
fn same_key_workouts_keep_first_header() {
    let w1 = workout(Activity::Running, 100, 1);
    let mut w2 = workout(Activity::Running, 100, 1);
    w2.records[0].timestamp = Some(999);
    let mut s = Store::new();
    s.ingest_workout(&w1);
    s.ingest_workout(&w2);
    // one header and polygon row for the shared key, one record row
    // per distinct sample key
    assert_eq!(counts(&s), (1, 1, 2));
}

#[test]
fn parsed_workout_ingests_idempotently() {
    let content = b"<gpx>\
<trkpt lat=\"47.1\" lon=\"9.5\"><time>2024-01-02T03:04:05.000Z</time><hr>95</hr></trkpt>\
<trkpt lat=\"47.2\" lon=\"9.6\"><time>2024-01-02T03:04:06.000Z</time><hr>96</hr></trkpt>\
</gpx>";
    let w = workout_gpx_rs::load_gpx("Running-2024-01-02-030405.gpx", content)
        .unwrap()
        .unwrap();
    let mut s = Store::new();
    s.ingest_workout(&w);
    s.ingest_workout(&w);
    assert_eq!(counts(&s), (1, 1, 2));
    assert_eq!(s.headers[0].record_locations, "'[ [47.1,9.5],[47.2,9.6]]'");
}
