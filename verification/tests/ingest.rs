use workout_gpx_rs::Activity;
use workout_gpx_rs::ClassificationError;
use workout_gpx_rs::IngestError;
use workout_gpx_rs::ParseError;
use workout_gpx_rs::load_gpx;

const FIXTURE: &str = "<?xml version=\"1.0\" encoding=\"UTF-8\"?>\n\
<gpx xmlns:gpxtpx=\"http://www.garmin.com/xmlschemas/TrackPointExtension/v1\">\n\
<trk><name>Morning Run</name><trkseg>\n\
<trkpt lat=\"47.1\" lon=\"9.5\"><ele>143.6</ele><time>2024-01-02T03:04:05.000Z</time>\
<extensions><gpxtpx:TrackPointExtension><gpxtpx:hr>95</gpxtpx:hr>\
</gpxtpx:TrackPointExtension></extensions></trkpt>\n\
<trkpt lat=\"47.2\" lon=\"9.6\"><time>2024-01-02T03:04:06.000Z</time></trkpt>\n\
</trkseg></trk>\n\
</gpx>\n";

#[test]
fn end_to_end_fixture_file() {
    let w = load_gpx("Running-2024-01-02-030405.gpx", FIXTURE.as_bytes())
        .unwrap()
        .unwrap();
    assert_eq!(w.activity, Activity::Running);
    assert_eq!(w.timestamp, 1704164645);
    assert_eq!(w.records.len(), 2);
    for rec in &w.records {
        assert_eq!(rec.ds, Some(1704164645));
        assert_eq!(rec.activity, Some(Activity::Running));
    }
    let first = &w.records[0];
    assert_eq!(first.geopoint.map(|g| (g.lat, g.lng)), Some((471000000, 95000000)));
    assert_eq!(first.elevation, Some(1436000000));
    assert_eq!(first.timestamp, Some(1704164645));
    assert_eq!(first.heartrate, Some(95));
    let second = &w.records[1];
    assert_eq!(second.geopoint.map(|g| (g.lat, g.lng)), Some((472000000, 96000000)));
    assert_eq!(second.elevation, None);
    assert_eq!(second.heartrate, None);
    assert_eq!(second.timestamp, Some(1704164646));
    // both positions are non-origin; the first record carries several
    // sensor fields, the second only its own timestamp, which counts
    // as a populated sensor field
    assert!(first.validate());
    assert!(second.validate());
    assert_eq!(w.geopoly(), "'[ [47.1,9.5],[47.2,9.6]]'");
}

#[test]
fn unknown_activity_is_skipped_not_an_error() {
    let r = load_gpx("walk-2024-01-02-030405.gpx", FIXTURE.as_bytes());
    assert_eq!(r.map(|o| o.is_none()), Ok(true));
}

#[test]
fn missing_timestamp_token_fails_classification() {
    let r = load_gpx("Running-notoken.gpx", FIXTURE.as_bytes());
    assert_eq!(
        r.err(),
        Some(IngestError::Classification(ClassificationError::NoToken))
    );
}

#[test]
fn classification_error_wins_over_unknown_skip() {
    let r = load_gpx("walk.gpx", FIXTURE.as_bytes());
    assert_eq!(
        r.err(),
        Some(IngestError::Classification(ClassificationError::NoToken))
    );
}

#[test]
fn malformed_xml_fails_the_file() {
    let r = load_gpx("Running-2024-01-02-030405.gpx", b"<gpx><trkpt lat=");
    assert_eq!(r.err(), Some(IngestError::Parse(ParseError::MalformedXml)));
}

#[test]
fn bad_attribute_number_fails_the_file() {
    let content = b"<gpx><trkpt lat=\"north\" lon=\"9.5\"><ele>1</ele></trkpt></gpx>";
    let r = load_gpx("Running-2024-01-02-030405.gpx", content);
    assert_eq!(r.err(), Some(IngestError::Parse(ParseError::BadNumber)));
}

#[test]
fn bad_field_number_fails_the_file() {
    let content = b"<gpx><trkpt lat=\"1\" lon=\"2\"><hr>fast</hr></trkpt></gpx>";
    let r = load_gpx("Running-2024-01-02-030405.gpx", content);
    assert_eq!(r.err(), Some(IngestError::Parse(ParseError::BadNumber)));
}

#[test]
fn bad_time_text_fails_the_file() {
    let content = b"<gpx><trkpt lat=\"1\" lon=\"2\"><time>noon</time></trkpt></gpx>";
    let r = load_gpx("Running-2024-01-02-030405.gpx", content);
    assert_eq!(r.err(), Some(IngestError::Parse(ParseError::BadTimestamp)));
}

#[test]
fn one_record_per_sample_element_not_per_event() {
    let content = b"<gpx><trkpt lat=\"1\" lon=\"2\"><ele>5</ele><hr>90</hr></trkpt></gpx>";
    let w = load_gpx("Running-2024-01-02-030405.gpx", content)
        .unwrap()
        .unwrap();
    assert_eq!(w.records.len(), 1);
    assert_eq!(w.records[0].elevation, Some(50000000));
    assert_eq!(w.records[0].heartrate, Some(90));
}

#[test]
fn self_closing_sample_element() {
    let content = b"<gpx><trkpt lat=\"1\" lon=\"2\"/></gpx>";
    let w = load_gpx("Running-2024-01-02-030405.gpx", content)
        .unwrap()
        .unwrap();
    assert_eq!(w.records.len(), 1);
    assert_eq!(w.records[0].geopoint.map(|g| (g.lat, g.lng)), Some((10000000, 20000000)));
    // a sample without any sensor reading is an empty placeholder
    assert!(!w.records[0].validate());
}

#[test]
fn missing_coordinates_default_to_origin() {
    let content = b"<gpx><trkpt><hr>90</hr></trkpt></gpx>";
    let w = load_gpx("Running-2024-01-02-030405.gpx", content)
        .unwrap()
        .unwrap();
    assert_eq!(w.records[0].geopoint.map(|g| (g.lat, g.lng)), Some((0, 0)));
    assert!(!w.records[0].validate());
}

#[test]
fn comments_and_declaration_are_skipped() {
    let content = b"<?xml version=\"1.0\"?><!-- a trace --><gpx><trkpt lat=\"1\" lon=\"2\"><hr>90</hr></trkpt></gpx>";
    let w = load_gpx("Running-2024-01-02-030405.gpx", content)
        .unwrap()
        .unwrap();
    assert_eq!(w.records.len(), 1);
}
