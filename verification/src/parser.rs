//! The streaming sample parser: XML events folded into a workout.
//!
//! The event walk threads an explicit parser state — the name of the
//! element currently open, the in-progress record, and the in-progress
//! position — through the document in order. A trackpoint start reads
//! its `lat`/`lon` attributes into a fresh position; character data
//! under a recognized element name is parsed into the matching record
//! field; a trackpoint close finalizes the record (stamping the file's
//! activity, the reference epoch `ds`, and the accumulated position),
//! appends it, and resets both accumulators. One record is emitted per
//! sample element, never per event. Any malformed XML or unparsable
//! field fails the whole file with no partial workout.

use vstd::prelude::*;

use crate::activity::Activity;
use crate::activity::get_activity;
use crate::activity::spec_activity_of;
use crate::epoch::get_workout_timestamp;
use crate::epoch::spec_workout_timestamp;
use crate::errors::IngestError;
use crate::errors::ParseError;
use crate::record::GeoPoint;
use crate::record::Record;
use crate::workout::Workout;
use crate::xml::Attr;
use crate::xml::Ev;
use crate::xml::XmlEvent;
use crate::xml::evs_of;
use crate::xml::is_ws;
use crate::xml::spec_lex_from;
use crate::xml::tokenize;

verus! {

use vstd::string::StringSliceAdditionalSpecFns;
use crate::record::spec_load_data;
use crate::record::spec_parse_fixed;
use crate::num::parse_fixed;
use crate::store::records_stamped;

/// The parser state threaded through the event walk.
pub ghost struct BuildState {
    pub cur: Seq<u8>,
    pub rec: Record,
    pub geo: GeoPoint,
    pub recs: Seq<Record>,
}

/// The local name of the trackpoint sample element.
pub open spec fn spec_trkpt() -> Seq<u8> {
    seq![('t' as u8), ('r' as u8), ('k' as u8), ('p' as u8), ('t' as u8)]
}

/// The latitude attribute name.
pub open spec fn spec_lat() -> Seq<u8> {
    seq![('l' as u8), ('a' as u8), ('t' as u8)]
}

/// The longitude attribute name.
pub open spec fn spec_lon() -> Seq<u8> {
    seq![('l' as u8), ('o' as u8), ('n' as u8)]
}

/// Character data that is nothing but whitespace (ignored, as it is
/// indentation between elements).
pub open spec fn all_ws(t: Seq<u8>) -> bool {
    forall|k: int| 0 <= k < t.len() ==> is_ws(t[k])
}

/// The position read from a sample element's attribute list, applied
/// left to right over the fresh position `g`: `lat` and `lon` values
/// parse as fixed-point degrees, any other attribute is ignored.
pub open spec fn spec_geo_attrs(g: GeoPoint, attrs: Seq<(Seq<u8>, Seq<u8>)>) -> Result<
    GeoPoint,
    ParseError,
>
    decreases attrs.len(),
{
    if attrs.len() == 0 {
        Ok(g)
    } else {
        match spec_geo_attrs(g, attrs.drop_last()) {
            Err(e) => Err(e),
            Ok(g1) => {
                let (n, v) = attrs.last();
                if n == spec_lat() {
                    match spec_parse_fixed(v) {
                        Ok(x) => Ok(GeoPoint { lat: x as i64, ..g1 }),
                        Err(e) => Err(e),
                    }
                } else if n == spec_lon() {
                    match spec_parse_fixed(v) {
                        Ok(x) => Ok(GeoPoint { lng: x as i64, ..g1 }),
                        Err(e) => Err(e),
                    }
                } else {
                    Ok(g1)
                }
            },
        }
    }
}

/// The state before any event.
pub open spec fn init_state() -> BuildState {
    BuildState {
        cur: Seq::empty(),
        rec: Record::spec_empty(),
        geo: GeoPoint { lat: 0, lng: 0 },
        recs: Seq::empty(),
    }
}

/// One step of the event walk.
pub open spec fn spec_step(st: BuildState, ev: Ev, a: Activity, ds: i64) -> Result<
    BuildState,
    ParseError,
> {
    match ev {
        Ev::Start(name, attrs) => if name == spec_trkpt() {
            match spec_geo_attrs(GeoPoint { lat: 0, lng: 0 }, attrs) {
                Err(e) => Err(e),
                Ok(g) => Ok(BuildState { cur: name, geo: g, ..st }),
            }
        } else {
            Ok(BuildState { cur: name, ..st })
        },
        Ev::Text(t) => if all_ws(t) {
            Ok(st)
        } else {
            match spec_load_data(st.rec, st.cur, t) {
                Err(e) => Err(e),
                Ok(rec) => Ok(BuildState { rec, ..st }),
            }
        },
        Ev::End(name) => if name == spec_trkpt() {
            let done = Record {
                activity: Some(a),
                ds: Some(ds),
                geopoint: Some(st.geo),
                ..st.rec
            };
            Ok(
                BuildState {
                    recs: st.recs.push(done),
                    rec: Record::spec_empty(),
                    geo: GeoPoint { lat: 0, lng: 0 },
                    ..st
                },
            )
        } else {
            Ok(st)
        },
    }
}

/// The state after the whole event sequence, or the first step error.
pub open spec fn spec_run(events: Seq<Ev>, a: Activity, ds: i64) -> Result<
    BuildState,
    ParseError,
>
    decreases events.len(),
{
    if events.len() == 0 {
        Ok(init_state())
    } else {
        match spec_run(events.drop_last(), a, ds) {
            Err(e) => Err(e),
            Ok(st) => spec_step(st, events.last(), a, ds),
        }
    }
}

/// What parsing a whole file's content yields: the record sequence in
/// document order, or the first tokenizer or field error.
pub open spec fn spec_parse_records(s: Seq<u8>, a: Activity, ds: i64) -> Result<
    Seq<Record>,
    ParseError,
> {
    match spec_lex_from(s, 0) {
        None => Err(ParseError::MalformedXml),
        Some(evs) => match spec_run(evs, a, ds) {
            Err(e) => Err(e),
            Ok(st) => Ok(st.recs),
        },
    }
}

/// A step error at any prefix is the whole run's error.
proof fn lemma_run_err(events: Seq<Ev>, m: int, a: Activity, ds: i64)
    requires
        0 <= m <= events.len(),
        spec_run(events.take(m), a, ds) is Err,
    ensures
        spec_run(events, a, ds) == spec_run(events.take(m), a, ds),
    decreases events.len() - m,
{
    if m < events.len() {
        assert(events.take(m + 1).drop_last() =~= events.take(m));
        assert(spec_run(events.take(m + 1), a, ds) == spec_run(events.take(m), a, ds));
        lemma_run_err(events, m + 1, a, ds);
    } else {
        assert(events.take(m) =~= events);
    }
}

/// Every record of a parsed workout carries the workout's activity and
/// its reference epoch as `ds`: the walk stamps both at each sample
/// boundary.
pub proof fn lemma_run_stamped(events: Seq<Ev>, a: Activity, ds: i64)
    ensures
        spec_run(events, a, ds) matches Ok(st) ==> records_stamped(st.recs, a, ds),
    decreases events.len(),
{
    if events.len() > 0 {
        lemma_run_stamped(events.drop_last(), a, ds);
        if spec_run(events, a, ds) is Ok {
            let st0 = match spec_run(events.drop_last(), a, ds) {
                Ok(st0) => st0,
                Err(e) => init_state(),
            };
            let st1 = match spec_run(events, a, ds) {
                Ok(st1) => st1,
                Err(e) => init_state(),
            };
            match events.last() {
                Ev::End(name) => {
                    if name == spec_trkpt() {
                        assert(st1.recs.last().activity == Some(a) && st1.recs.last().ds == Some(
                            ds,
                        ));
                        assert(forall|j: int|
                            0 <= j < st0.recs.len() ==> #[trigger] st1.recs[j] == st0.recs[j]);
                    }
                },
                _ => {
                },
            }
        }
    }
}

/// The parsed record sequence of a classified file is stamped with its
/// activity and reference epoch.
pub proof fn lemma_parse_records_stamped(s: Seq<u8>, a: Activity, ds: i64)
    ensures
        spec_parse_records(s, a, ds) matches Ok(recs) ==> records_stamped(recs, a, ds),
{
    match spec_lex_from(s, 0) {
        None => {
        },
        Some(evs) => {
            lemma_run_stamped(evs, a, ds);
        },
    }
}

fn trkpt_bytes() -> (v: Vec<u8>)
    ensures
        v@ == spec_trkpt(),
{
    let mut v: Vec<u8> = Vec::new();
    v.push('t' as u8);
    v.push('r' as u8);
    v.push('k' as u8);
    v.push('p' as u8);
    v.push('t' as u8);
    proof {
        assert(v@ =~= spec_trkpt());
    }
    v
}

fn lat_bytes() -> (v: Vec<u8>)
    ensures
        v@ == spec_lat(),
{
    let mut v: Vec<u8> = Vec::new();
    v.push('l' as u8);
    v.push('a' as u8);
    v.push('t' as u8);
    proof {
        assert(v@ =~= spec_lat());
    }
    v
}

fn lon_bytes() -> (v: Vec<u8>)
    ensures
        v@ == spec_lon(),
{
    let mut v: Vec<u8> = Vec::new();
    v.push('l' as u8);
    v.push('o' as u8);
    v.push('n' as u8);
    proof {
        assert(v@ =~= spec_lon());
    }
    v
}

/// Byte-for-byte equality of two vectors.
fn vec_eq(a: &Vec<u8>, b: &Vec<u8>) -> (r: bool)
    ensures
        r == (a@ == b@),
{
    crate::record::slice_eq(a.as_slice(), b.as_slice())
}

fn ws_only(t: &Vec<u8>) -> (r: bool)
    ensures
        r == all_ws(t@),
{
    let n = t.len();
    let mut i: usize = 0;
    while i < n
        invariant
            i <= n == t@.len(),
            forall|k: int| 0 <= k < i ==> is_ws(t@[k]),
        decreases n - i,
    {
        let b = t[i];
        if !(b == (' ' as u8) || b == ('\t' as u8) || b == ('\n' as u8) || b == ('\r' as u8)) {
            return false;
        }
        i = i + 1;
    }
    true
}

/// Read a sample element's `lat`/`lon` attributes into a fresh
/// position, per [`spec_geo_attrs`].
fn geo_from_attrs(attrs: &Vec<Attr>) -> (r: Result<GeoPoint, ParseError>)
    ensures
        ({
            let av = attrs@.map_values(|a: Attr| a@);
            match spec_geo_attrs(GeoPoint { lat: 0, lng: 0 }, av) {
                Err(e) => r == Err::<GeoPoint, ParseError>(e),
                Ok(g) => r == Ok::<GeoPoint, ParseError>(g),
            }
        }),
{
    let ghost av = attrs@.map_values(|a: Attr| a@);
    let lat_n = lat_bytes();
    let lon_n = lon_bytes();
    let mut g = GeoPoint { lat: 0, lng: 0 };
    let n = attrs.len();
    let mut i: usize = 0;
    while i < n
        invariant
            i <= n == attrs@.len(),
            av == attrs@.map_values(|a: Attr| a@),
            lat_n@ == spec_lat(),
            lon_n@ == spec_lon(),
            spec_geo_attrs(GeoPoint { lat: 0, lng: 0 }, av.take(i as int)) == Ok::<
                GeoPoint,
                ParseError,
            >(g),
        decreases n - i,
    {
        let a = &attrs[i];
        proof {
            assert(av.take(i + 1).drop_last() =~= av.take(i as int));
            assert(av.take(i + 1).last() == av[i as int]);
            assert(av[i as int] == attrs@[i as int]@);
        }
        if vec_eq(&a.name, &lat_n) {
            match parse_fixed(a.value.as_slice()) {
                Ok(x) => {
                    g.lat = x;
                },
                Err(e) => {
                    proof {
                        assert(spec_geo_attrs(GeoPoint { lat: 0, lng: 0 }, av.take(i + 1))
                            == Err::<GeoPoint, ParseError>(e));
                        lemma_geo_err(av, i + 1);
                    }
                    return Err(e);
                },
            }
        } else if vec_eq(&a.name, &lon_n) {
            match parse_fixed(a.value.as_slice()) {
                Ok(x) => {
                    g.lng = x;
                },
                Err(e) => {
                    proof {
                        assert(spec_geo_attrs(GeoPoint { lat: 0, lng: 0 }, av.take(i + 1))
                            == Err::<GeoPoint, ParseError>(e));
                        lemma_geo_err(av, i + 1);
                    }
                    return Err(e);
                },
            }
        }
        i = i + 1;
        proof {
            assert(spec_geo_attrs(GeoPoint { lat: 0, lng: 0 }, av.take(i as int)) == Ok::<
                GeoPoint,
                ParseError,
            >(g));
        }
    }
    proof {
        assert(av.take(n as int) =~= av);
    }
    Ok(g)
}

/// An attribute error at any prefix is the whole list's error.
proof fn lemma_geo_err(av: Seq<(Seq<u8>, Seq<u8>)>, m: int)
    requires
        0 <= m <= av.len(),
        spec_geo_attrs(GeoPoint { lat: 0, lng: 0 }, av.take(m)) is Err,
    ensures
        spec_geo_attrs(GeoPoint { lat: 0, lng: 0 }, av) == spec_geo_attrs(
            GeoPoint { lat: 0, lng: 0 },
            av.take(m),
        ),
    decreases av.len() - m,
{
    if m < av.len() {
        assert(av.take(m + 1).drop_last() =~= av.take(m));
        lemma_geo_err(av, m + 1);
    } else {
        assert(av.take(m) =~= av);
    }
}

/// Fold the event walk into the file's record sequence.
fn build_records(events: &Vec<XmlEvent>, activity: Activity, ds: i64) -> (r: Result<
    Vec<Record>,
    ParseError,
>)
    ensures
        ({
            let evs = evs_of(events@);
            match spec_run(evs, activity, ds) {
                Err(e) => r == Err::<Vec<Record>, ParseError>(e),
                Ok(st) => r matches Ok(v) && v@ == st.recs,
            }
        }),
{
    let ghost evs = evs_of(events@);
    let trkpt = trkpt_bytes();
    let mut cur: Vec<u8> = Vec::new();
    let mut rec: Record = Record::empty();
    let mut geo = GeoPoint { lat: 0, lng: 0 };
    let mut recs: Vec<Record> = Vec::new();
    let n = events.len();
    let mut i: usize = 0;
    proof {
        assert(evs.take(0) =~= Seq::<Ev>::empty());
    }
    while i < n
        invariant
            i <= n == events@.len(),
            evs == evs_of(events@),
            trkpt@ == spec_trkpt(),
            spec_run(evs.take(i as int), activity, ds) == Ok::<BuildState, ParseError>(
                BuildState { cur: cur@, rec, geo, recs: recs@ },
            ),
        decreases n - i,
    {
        proof {
            assert(evs.take(i + 1).drop_last() =~= evs.take(i as int));
            assert(evs.take(i + 1).last() == evs[i as int]);
            assert(evs[i as int] == events@[i as int]@);
        }
        let ghost st_i = BuildState { cur: cur@, rec, geo, recs: recs@ };
        match &events[i] {
            XmlEvent::Start { name, attrs } => {
                if vec_eq(name, &trkpt) {
                    match geo_from_attrs(attrs) {
                        Ok(g) => {
                            geo = g;
                            cur = name.clone();
                        },
                        Err(e) => {
                            proof {
                                assert(spec_run(evs.take(i + 1), activity, ds) == Err::<
                                    BuildState,
                                    ParseError,
                                >(e));
                                lemma_run_err(evs, i + 1, activity, ds);
                            }
                            return Err(e);
                        },
                    }
                } else {
                    cur = name.clone();
                }
            },
            XmlEvent::Text { text } => {
                if !ws_only(text) {
                    match rec.load_data(cur.as_slice(), text.as_slice()) {
                        Ok(()) => {
                        },
                        Err(e) => {
                            proof {
                                assert(spec_run(evs.take(i + 1), activity, ds) == Err::<
                                    BuildState,
                                    ParseError,
                                >(e));
                                lemma_run_err(evs, i + 1, activity, ds);
                            }
                            return Err(e);
                        },
                    }
                }
            },
            XmlEvent::End { name } => {
                if vec_eq(name, &trkpt) {
                    let mut done = rec;
                    done.activity = Some(activity);
                    done.ds = Some(ds);
                    done.geopoint = Some(geo);
                    recs.push(done);
                    rec = Record::empty();
                    geo = GeoPoint { lat: 0, lng: 0 };
                }
            },
        }
        i = i + 1;
        proof {
            assert(spec_run(evs.take(i as int), activity, ds) == Ok::<BuildState, ParseError>(
                BuildState { cur: cur@, rec, geo, recs: recs@ },
            ));
        }
    }
    proof {
        assert(evs.take(n as int) =~= evs);
    }
    Ok(recs)
}

/// Parse one file's XML content, already classified, into its record
/// sequence: one record per sample element, in document order, each
/// stamped with the file's activity, the reference epoch `ds`, and its
/// accumulated position.
pub fn parse_records(content: &[u8], activity: Activity, ds: i64) -> (r: Result<
    Vec<Record>,
    ParseError,
>)
    ensures
        ({
            match spec_parse_records(content@, activity, ds) {
                Err(e) => r == Err::<Vec<Record>, ParseError>(e),
                Ok(recs) => r matches Ok(v) && v@ == recs,
            }
        }),
{
    match tokenize(content) {
        Err(_) => Err(ParseError::MalformedXml),
        Ok(events) => build_records(&events, activity, ds),
    }
}

/// Ingest one file: classify its activity and reference timestamp from
/// the path, and parse its content into a workout. A path without a
/// valid date-time token, or content that does not parse, fails this
/// file only; a path whose activity is `Unknown` is skipped (`None`),
/// a valid outcome rather than an error. Every record of the returned
/// workout carries the workout's activity and its reference epoch as
/// `ds`.
pub fn load_gpx(path: &str, content: &[u8]) -> (r: Result<Option<Workout>, IngestError>)
    ensures
        ({
            let p = path.spec_bytes();
            let a = spec_activity_of(p);
            match spec_workout_timestamp(p) {
                Err(e) => r == Err::<Option<Workout>, IngestError>(IngestError::Classification(e)),
                Ok(ts) => if a == Activity::Unknown {
                    r == Ok::<Option<Workout>, IngestError>(None)
                } else {
                    match spec_parse_records(content@, a, ts as i64) {
                        Err(e) => r == Err::<Option<Workout>, IngestError>(IngestError::Parse(e)),
                        Ok(recs) => r matches Ok(Some(w)) && w.activity == a && w.timestamp == ts
                            && w.records@ == recs,
                    }
                },
            }
        }),
{
    let activity = get_activity(path);
    let timestamp = match get_workout_timestamp(path) {
        Err(e) => {
            return Err(IngestError::Classification(e));
        },
        Ok(t) => t,
    };
    match activity {
        Activity::Unknown => Ok(None),
        _ => {
            match parse_records(content, activity, timestamp) {
                Err(e) => Err(IngestError::Parse(e)),
                Ok(records) => Ok(Some(Workout { activity, timestamp, records })),
            }
        },
    }
}

} // verus!
