//! Sample records and their validation.
//!
//! A record is one trackpoint's data: a position and an independently
//! optional set of sensor readings, all sparse in real source files.
//! Coordinates and fractional sensor values are fixed-point counts of
//! 1e-7 units (see the number module). A record is valid exactly when
//! its position is not within the validator's epsilon of the origin
//! ("null island", an uninitialized GPS fix) and at least one sensor
//! field is populated (an empty placeholder sample).

use vstd::prelude::*;

use crate::activity::Activity;
use crate::errors::ParseError;

verus! {

use crate::epoch::spec_record_timestamp;
use crate::epoch::record_timestamp_bytes;
use crate::num::int_text;
use crate::num::int_text_val;
use crate::num::fixed_text;
use crate::num::fixed_val;
use crate::num::parse_i32;
use crate::num::parse_fixed;

/// A position in double-resolution degrees, held as fixed-point counts
/// of 1e-7 degrees. `(0, 0)` is the null-island sentinel.
#[derive(Clone, Copy, Debug, PartialEq, Eq, Structural)]
pub struct GeoPoint {
    pub lat: i64,
    pub lng: i64,
}

/// One sample point: denormalized activity, the workout-level reference
/// epoch `ds`, the sample's own timestamp, position, and sensor fields.
#[allow(non_snake_case)]
#[derive(Clone, Copy, Debug, PartialEq, Eq, Structural)]
pub struct Record {
    pub activity: Option<Activity>,
    pub ds: Option<i64>,
    pub timestamp: Option<i64>,
    pub geopoint: Option<GeoPoint>,
    pub elevation: Option<i64>,
    pub heartrate: Option<i32>,
    pub temperature: Option<i32>,
    pub speed: Option<i64>,
    pub course: Option<i64>,
    pub hAcc: Option<i64>,
    pub vAcc: Option<i64>,
}

impl Record {
    /// A record with every field unset.
    pub open spec fn spec_empty() -> Record {
        Record {
            activity: None,
            ds: None,
            timestamp: None,
            geopoint: None,
            elevation: None,
            heartrate: None,
            temperature: None,
            speed: None,
            course: None,
            hAcc: None,
            vAcc: None,
        }
    }

    /// A record with every field unset.
    pub fn empty() -> (r: Record)
        ensures
            r == Record::spec_empty(),
    {
        Record {
            activity: None,
            ds: None,
            timestamp: None,
            geopoint: None,
            elevation: None,
            heartrate: None,
            temperature: None,
            speed: None,
            course: None,
            hAcc: None,
            vAcc: None,
        }
    }

    /// The position is within the validator's epsilon of the origin:
    /// in degrees, `sqrt(lat^2 + lng^2) <= 1e-7`; in 1e-7-degree
    /// fixed-point steps, `lat^2 + lng^2 <= 1`. A record without a
    /// position is not at null island.
    pub open spec fn spec_null_island(self) -> bool {
        match self.geopoint {
            Some(g) => g.lat * g.lat + g.lng * g.lng <= 1,
            None => false,
        }
    }

    /// Some sensor field (or the sample's own timestamp) is populated.
    pub open spec fn spec_has_sensor(self) -> bool {
        ||| self.elevation is Some
        ||| self.timestamp is Some
        ||| self.heartrate is Some
        ||| self.temperature is Some
        ||| self.speed is Some
        ||| self.course is Some
        ||| self.hAcc is Some
        ||| self.vAcc is Some
    }

    /// A record is usable iff it is not a null-island fix and carries
    /// at least one sensor reading.
    pub open spec fn spec_valid(self) -> bool {
        !self.spec_null_island() && self.spec_has_sensor()
    }

    /// Decide whether this record is persisted: not a null-island fix,
    /// and at least one sensor field populated. An invalid record is
    /// excluded from persistence but does not abort ingestion.
    pub fn validate(&self) -> (r: bool)
        ensures
            r == self.spec_valid(),
    {
        let ni = match &self.geopoint {
            Some(g) => {
                proof {
                    lemma_unit_disc(g.lat as int, g.lng as int);
                }
                (g.lat == 0 && g.lng == 0) || (g.lat == 0 && (g.lng == 1 || g.lng == -1)) || ((
                g.lat == 1 || g.lat == -1) && g.lng == 0)
            },
            None => false,
        };
        let has_sensor = self.elevation.is_some() || self.timestamp.is_some()
            || self.heartrate.is_some() || self.temperature.is_some() || self.speed.is_some()
            || self.course.is_some() || self.hAcc.is_some() || self.vAcc.is_some();
        !ni && has_sensor
    }
}

/// The integer points of the closed unit disc are exactly the origin
/// and its four axis neighbours.
proof fn lemma_unit_disc(a: int, b: int)
    ensures
        (a * a + b * b <= 1) <==> ((a == 0 && b == 0) || (a == 0 && (b == 1 || b == -1)) || ((a == 1
            || a == -1) && b == 0)),
{
    assert((a * a + b * b <= 1) <==> ((a == 0 && b == 0) || (a == 0 && (b == 1 || b == -1)) || ((a
        == 1 || a == -1) && b == 0))) by (nonlinear_arith);
}

impl Default for GeoPoint {
    /// The null-island sentinel position.
    fn default() -> (r: GeoPoint)
        ensures
            r == (GeoPoint { lat: 0, lng: 0 }),
    {
        GeoPoint { lat: 0, lng: 0 }
    }
}

impl Default for Record {
    /// A record with every field unset.
    fn default() -> (r: Record)
        ensures
            r == Record::spec_empty(),
    {
        Record::empty()
    }
}

/// The sample fields assignable from an XML child element's text, named
/// by the element's local name; `OtherField` stands for any name
/// outside the fixed vocabulary, whose text is ignored.
#[derive(Clone, Copy, Debug, PartialEq, Eq, Structural)]
pub enum FieldKind {
    Ele,
    Time,
    Hr,
    Atemp,
    Speed,
    Course,
    HAcc,
    VAcc,
    OtherField,
}

/// The element name that selects each assignable field.
pub open spec fn spec_name(f: FieldKind) -> Seq<u8> {
    match f {
        FieldKind::Ele => seq![('e' as u8), ('l' as u8), ('e' as u8)],
        FieldKind::Time => seq![('t' as u8), ('i' as u8), ('m' as u8), ('e' as u8)],
        FieldKind::Hr => seq![('h' as u8), ('r' as u8)],
        FieldKind::Atemp => seq![('a' as u8), ('t' as u8), ('e' as u8), ('m' as u8), ('p' as u8)],
        FieldKind::Speed => seq![('s' as u8), ('p' as u8), ('e' as u8), ('e' as u8), ('d' as u8)],
        FieldKind::Course => seq![
            ('c' as u8),
            ('o' as u8),
            ('u' as u8),
            ('r' as u8),
            ('s' as u8),
            ('e' as u8),
        ],
        FieldKind::HAcc => seq![('h' as u8), ('A' as u8), ('c' as u8), ('c' as u8)],
        FieldKind::VAcc => seq![('v' as u8), ('A' as u8), ('c' as u8), ('c' as u8)],
        FieldKind::OtherField => Seq::empty(),
    }
}

/// The field selected by an element name, `OtherField` when the name is
/// not in the vocabulary.
pub open spec fn spec_field_of(name: Seq<u8>) -> FieldKind {
    if name == spec_name(FieldKind::Ele) {
        FieldKind::Ele
    } else if name == spec_name(FieldKind::Time) {
        FieldKind::Time
    } else if name == spec_name(FieldKind::Hr) {
        FieldKind::Hr
    } else if name == spec_name(FieldKind::Atemp) {
        FieldKind::Atemp
    } else if name == spec_name(FieldKind::Speed) {
        FieldKind::Speed
    } else if name == spec_name(FieldKind::Course) {
        FieldKind::Course
    } else if name == spec_name(FieldKind::HAcc) {
        FieldKind::HAcc
    } else if name == spec_name(FieldKind::VAcc) {
        FieldKind::VAcc
    } else {
        FieldKind::OtherField
    }
}

/// The bytes of the element name that selects field `f`.
fn name_bytes(f: FieldKind) -> (v: Vec<u8>)
    requires
        f != FieldKind::OtherField,
    ensures
        v@ == spec_name(f),
{
    let mut v: Vec<u8> = Vec::new();
    match f {
        FieldKind::Ele => {
            v.push('e' as u8);
            v.push('l' as u8);
            v.push('e' as u8);
        },
        FieldKind::Time => {
            v.push('t' as u8);
            v.push('i' as u8);
            v.push('m' as u8);
            v.push('e' as u8);
        },
        FieldKind::Hr => {
            v.push('h' as u8);
            v.push('r' as u8);
        },
        FieldKind::Atemp => {
            v.push('a' as u8);
            v.push('t' as u8);
            v.push('e' as u8);
            v.push('m' as u8);
            v.push('p' as u8);
        },
        FieldKind::Speed => {
            v.push('s' as u8);
            v.push('p' as u8);
            v.push('e' as u8);
            v.push('e' as u8);
            v.push('d' as u8);
        },
        FieldKind::Course => {
            v.push('c' as u8);
            v.push('o' as u8);
            v.push('u' as u8);
            v.push('r' as u8);
            v.push('s' as u8);
            v.push('e' as u8);
        },
        FieldKind::HAcc => {
            v.push('h' as u8);
            v.push('A' as u8);
            v.push('c' as u8);
            v.push('c' as u8);
        },
        FieldKind::VAcc => {
            v.push('v' as u8);
            v.push('A' as u8);
            v.push('c' as u8);
            v.push('c' as u8);
        },
        FieldKind::OtherField => {
        },
    }
    proof {
        assert(v@ =~= spec_name(f));
    }
    v
}

/// Byte-for-byte equality of two slices.
pub fn slice_eq(a: &[u8], b: &[u8]) -> (r: bool)
    ensures
        r == (a@ == b@),
{
    if a.len() != b.len() {
        return false;
    }
    let n = a.len();
    let mut i: usize = 0;
    while i < n
        invariant
            n == a@.len() == b@.len(),
            i <= n,
            forall|k: int| 0 <= k < i ==> a@[k] == b@[k],
        decreases n - i,
    {
        if a[i] != b[i] {
            return false;
        }
        i = i + 1;
    }
    proof {
        assert(a@ =~= b@);
    }
    true
}

/// Byte-for-byte equality of a slice and a vector.
fn slice_eq_vec(a: &[u8], b: &Vec<u8>) -> (r: bool)
    ensures
        r == (a@ == b@),
{
    slice_eq(a, b.as_slice())
}

/// The field selected by an element's local name.
pub fn field_of(name: &[u8]) -> (f: FieldKind)
    ensures
        f == spec_field_of(name@),
{
    if slice_eq_vec(name, &name_bytes(FieldKind::Ele)) {
        FieldKind::Ele
    } else if slice_eq_vec(name, &name_bytes(FieldKind::Time)) {
        FieldKind::Time
    } else if slice_eq_vec(name, &name_bytes(FieldKind::Hr)) {
        FieldKind::Hr
    } else if slice_eq_vec(name, &name_bytes(FieldKind::Atemp)) {
        FieldKind::Atemp
    } else if slice_eq_vec(name, &name_bytes(FieldKind::Speed)) {
        FieldKind::Speed
    } else if slice_eq_vec(name, &name_bytes(FieldKind::Course)) {
        FieldKind::Course
    } else if slice_eq_vec(name, &name_bytes(FieldKind::HAcc)) {
        FieldKind::HAcc
    } else if slice_eq_vec(name, &name_bytes(FieldKind::VAcc)) {
        FieldKind::VAcc
    } else {
        FieldKind::OtherField
    }
}

/// What assigning element text to a record yields: the record with the
/// named field set to the parsed value, the record unchanged for a name
/// outside the vocabulary, or the text's parse error.
pub open spec fn spec_load_data(rec: Record, name: Seq<u8>, text: Seq<u8>) -> Result<
    Record,
    ParseError,
> {
    match spec_field_of(name) {
        FieldKind::Ele => match spec_parse_fixed(text) {
            Ok(v) => Ok(Record { elevation: Some(v as i64), ..rec }),
            Err(e) => Err(e),
        },
        FieldKind::Time => match spec_record_timestamp(text) {
            Ok(t) => Ok(Record { timestamp: Some(t as i64), ..rec }),
            Err(e) => Err(e),
        },
        FieldKind::Hr => match spec_parse_i32(text) {
            Ok(v) => Ok(Record { heartrate: Some(v as i32), ..rec }),
            Err(e) => Err(e),
        },
        FieldKind::Atemp => match spec_parse_i32(text) {
            Ok(v) => Ok(Record { temperature: Some(v as i32), ..rec }),
            Err(e) => Err(e),
        },
        FieldKind::Speed => match spec_parse_fixed(text) {
            Ok(v) => Ok(Record { speed: Some(v as i64), ..rec }),
            Err(e) => Err(e),
        },
        FieldKind::Course => match spec_parse_fixed(text) {
            Ok(v) => Ok(Record { course: Some(v as i64), ..rec }),
            Err(e) => Err(e),
        },
        FieldKind::HAcc => match spec_parse_fixed(text) {
            Ok(v) => Ok(Record { hAcc: Some(v as i64), ..rec }),
            Err(e) => Err(e),
        },
        FieldKind::VAcc => match spec_parse_fixed(text) {
            Ok(v) => Ok(Record { vAcc: Some(v as i64), ..rec }),
            Err(e) => Err(e),
        },
        FieldKind::OtherField => Ok(rec),
    }
}

/// What parsing an integer field text yields.
pub open spec fn spec_parse_i32(s: Seq<u8>) -> Result<int, ParseError> {
    if int_text(s) && -0x80000000 <= int_text_val(s) <= 0x7fffffff {
        Ok(int_text_val(s))
    } else {
        Err(ParseError::BadNumber)
    }
}

/// What parsing a fixed-point field text yields.
pub open spec fn spec_parse_fixed(s: Seq<u8>) -> Result<int, ParseError> {
    if fixed_text(s) && -0x8000000000000000 <= fixed_val(s) <= 0x7fffffffffffffff {
        Ok(fixed_val(s))
    } else {
        Err(ParseError::BadNumber)
    }
}

impl Record {
    /// Assign the parsed value of one XML child element's text to the
    /// field its local name selects; text under a name outside the
    /// vocabulary is ignored. A text that does not parse as the field's
    /// type fails the whole file's ingestion.
    pub fn load_data(&mut self, name: &[u8], text: &[u8]) -> (r: Result<(), ParseError>)
        ensures
            match spec_load_data(*old(self), name@, text@) {
                Ok(rec) => r matches Ok(u) && *final(self) == rec,
                Err(e) => r == Err::<(), ParseError>(e) && *final(self) == *old(self),
            },
    {
        match field_of(name) {
            FieldKind::Ele => match parse_fixed(text) {
                Ok(v) => {
                    self.elevation = Some(v);
                    Ok(())
                },
                Err(e) => Err(e),
            },
            FieldKind::Time => match record_timestamp_bytes(text) {
                Ok(t) => {
                    self.timestamp = Some(t);
                    Ok(())
                },
                Err(e) => Err(e),
            },
            FieldKind::Hr => match parse_i32(text) {
                Ok(v) => {
                    self.heartrate = Some(v);
                    Ok(())
                },
                Err(e) => Err(e),
            },
            FieldKind::Atemp => match parse_i32(text) {
                Ok(v) => {
                    self.temperature = Some(v);
                    Ok(())
                },
                Err(e) => Err(e),
            },
            FieldKind::Speed => match parse_fixed(text) {
                Ok(v) => {
                    self.speed = Some(v);
                    Ok(())
                },
                Err(e) => Err(e),
            },
            FieldKind::Course => match parse_fixed(text) {
                Ok(v) => {
                    self.course = Some(v);
                    Ok(())
                },
                Err(e) => Err(e),
            },
            FieldKind::HAcc => match parse_fixed(text) {
                Ok(v) => {
                    self.hAcc = Some(v);
                    Ok(())
                },
                Err(e) => Err(e),
            },
            FieldKind::VAcc => match parse_fixed(text) {
                Ok(v) => {
                    self.vAcc = Some(v);
                    Ok(())
                },
                Err(e) => Err(e),
            },
            FieldKind::OtherField => Ok(()),
        }
    }
}

} // verus!
