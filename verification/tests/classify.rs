use workout_gpx_rs::Activity;
use workout_gpx_rs::ClassificationError;
use workout_gpx_rs::get_activity;
use workout_gpx_rs::get_record_timestamp;
use workout_gpx_rs::get_workout_timestamp;
use workout_gpx_rs::ParseError;

#[test]
fn activity_single_keyword_running() {
    assert_eq!(get_activity("gpx/Running-2024-01-02-030405.gpx"), Activity::Running);
}

#[test]
fn activity_single_keyword_cycling() {
    assert_eq!(get_activity("data/Cycling-2023-06-07-081530.gpx"), Activity::Cycling);
}

#[test]
fn activity_no_keyword_is_unknown() {
    assert_eq!(get_activity("gpx/walk-2024-01-02-030405.gpx"), Activity::Unknown);
    assert_eq!(get_activity(""), Activity::Unknown);
}

#[test]
fn activity_is_case_sensitive() {
    assert_eq!(get_activity("running-2024-01-02-030405.gpx"), Activity::Unknown);
}

#[test]
fn activity_earliest_match_wins() {
    assert_eq!(get_activity("Cycling-then-Running.gpx"), Activity::Cycling);
    assert_eq!(get_activity("Running-then-Cycling.gpx"), Activity::Running);
}

#[test]
fn activity_unknown_keyword_matches() {
    assert_eq!(get_activity("Unknown-2024-01-02-030405.gpx"), Activity::Unknown);
}

#[test]
fn workout_timestamp_epoch_utc() {
    // 2024-01-02T03:04:05 UTC
    assert_eq!(get_workout_timestamp("Running-2024-01-02-030405.gpx"), Ok(1704164645));
}

#[test]
fn workout_timestamp_epoch_origin() {
    // 1970-01-01T00:00:00 UTC is the epoch itself
    assert_eq!(get_workout_timestamp("x/1970-01-01-000000"), Ok(0));
}

#[test]
fn workout_timestamp_pre_epoch() {
    // a day before the epoch: negative seconds
    assert_eq!(get_workout_timestamp("1969-12-31-000000"), Ok(-86400));
}

#[test]
fn workout_timestamp_leap_day() {
    // 2024-02-29 is a valid leap day: epoch of 2024-02-29T12:00:00 UTC
    assert_eq!(get_workout_timestamp("Running-2024-02-29-120000.gpx"), Ok(1709208000));
}

#[test]
fn workout_timestamp_no_token() {
    assert_eq!(
        get_workout_timestamp("Running-notime.gpx"),
        Err(ClassificationError::NoToken)
    );
}

#[test]
fn workout_timestamp_invalid_month() {
    assert_eq!(
        get_workout_timestamp("Running-2024-13-01-000000.gpx"),
        Err(ClassificationError::InvalidDate)
    );
}

#[test]
fn workout_timestamp_invalid_day() {
    // 2023 is not a leap year
    assert_eq!(
        get_workout_timestamp("Running-2023-02-29-000000.gpx"),
        Err(ClassificationError::InvalidDate)
    );
}

#[test]
fn workout_timestamp_first_token_wins() {
    assert_eq!(
        get_workout_timestamp("2024-01-02-030405-then-2025-06-07-081530"),
        Ok(1704164645)
    );
}

#[test]
fn record_timestamp_iso_form() {
    assert_eq!(get_record_timestamp("2024-01-02T03:04:05.000Z"), Ok(1704164645));
}

#[test]
fn record_timestamp_millis_dropped() {
    assert_eq!(get_record_timestamp("2024-01-02T03:04:05.999Z"), Ok(1704164645));
}

#[test]
fn record_timestamp_plain_form() {
    assert_eq!(get_record_timestamp("2024-01-02 03:04:05"), Ok(1704164645));
}

#[test]
fn record_timestamp_rejects_other_text() {
    assert_eq!(get_record_timestamp("oops"), Err(ParseError::BadTimestamp));
    assert_eq!(get_record_timestamp(""), Err(ParseError::BadTimestamp));
    assert_eq!(
        get_record_timestamp("2024-01-02T03:04:05Z"),
        Err(ParseError::BadTimestamp)
    );
}

#[test]
fn record_timestamp_rejects_invalid_date() {
    assert_eq!(
        get_record_timestamp("2024-00-02T03:04:05.000Z"),
        Err(ParseError::BadTimestamp)
    );
    assert_eq!(get_record_timestamp("2024-01-02 25:00:00"), Err(ParseError::BadTimestamp));
}

#[test]
fn activity_label_text() {
    assert_eq!(Activity::Running.label(), "Running");
    assert_eq!(Activity::Cycling.label(), "Cycling");
    assert_eq!(Activity::Unknown.label(), "Unknown");
}
