//! Ingestion of activity-tracking log files (GPX-style XML).
//!
//! The library classifies an activity and a reference timestamp from a
//! file's path, parses the file's XML content into a sequence of sample
//! records, validates records against physical and completeness rules,
//! encodes the trajectory as a polygon literal, and models the
//! idempotent persistence of workouts into a three-table relational
//! store. The only trusted boundaries are the calendar conversion
//! (chrono), the digest (sha256) and the ASCII byte-to-string
//! conversion.

use vstd::prelude::*;

mod activity;
mod epoch;
mod errors;
mod hash;
mod num;
mod parser;
mod record;
mod store;
mod workout;
mod xml;

pub use activity::Activity;
pub use activity::get_activity;
pub use activity::kw_matches_at;
pub use activity::any_kw_at;
pub use activity::spec_activity_of;
pub use activity::lemma_activity_earliest;
pub use activity::lemma_activity_none;
pub use epoch::get_workout_timestamp;
pub use epoch::get_record_timestamp;
pub use epoch::epoch_of;
pub use epoch::valid_datetime;
pub use epoch::spec_workout_timestamp;
pub use epoch::spec_record_timestamp;
pub use errors::ClassificationError;
pub use errors::IngestError;
pub use errors::ParseError;
pub use hash::decode_hex;
pub use hash::digest_decimal;
pub use hash::sha256_hex_of;
pub use hash::spec_decode_hex;
pub use num::parse_i32;
pub use num::parse_fixed;
pub use num::push_fixed;
pub use num::spec_format_fixed;
pub use num::SCALE;
pub use parser::load_gpx;
pub use parser::parse_records;
pub use parser::spec_parse_records;
pub use parser::lemma_run_stamped;
pub use parser::lemma_parse_records_stamped;
pub use record::FieldKind;
pub use record::GeoPoint;
pub use record::Record;
pub use store::GeoRow;
pub use store::HeaderRow;
pub use store::RecordRow;
pub use store::Store;
pub use store::StoreView;
pub use store::spec_ingest;
pub use store::records_stamped;
pub use store::lemma_ingest_idempotent;
pub use store::lemma_ingest_commutes;
pub use workout::Workout;
pub use workout::spec_geopoly;
pub use workout::ascii_chars;
pub use xml::Attr;
pub use xml::XmlEvent;
