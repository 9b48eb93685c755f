//! A model of the three-table relational store and its insertion
//! contract.
//!
//! The store holds one header row per workout (unique on activity and
//! reference timestamp), one polygon row per workout (same key), and
//! one row per valid record (unique on the workout link, `ds` and the
//! sample timestamp). All inserts ignore a conflicting key, so
//! re-ingesting the same data is idempotent at the row level, and
//! ingesting independent workouts in any serialization order yields the
//! same final contents — which is why different concurrency limits all
//! produce identical row counts, the storage engine serializing writers
//! either way. The coordinator in front of the real storage engine
//! issues exactly these rows per workout, inside one transaction per
//! workout.

use vstd::prelude::*;

use crate::activity::Activity;
use crate::record::GeoPoint;
use crate::record::Record;
use crate::workout::Workout;

verus! {

use crate::workout::spec_geopoly;
use crate::workout::ascii_chars;

/// One `workouts` header row: the workout key and its encoded polygon.
#[derive(Clone, Debug)]
pub struct HeaderRow {
    pub activity: Activity,
    pub ds: i64,
    pub record_locations: String,
}

/// One polygon-table row: the workout key and the encoded shape.
#[derive(Clone, Debug)]
pub struct GeoRow {
    pub activity: Activity,
    pub ds: i64,
    pub shape: String,
}

/// One `workout_records` row. The workout link is the owning workout's
/// activity together with the row's `ds`; a missing position is stored
/// as the origin.
#[derive(Clone, Copy, Debug)]
pub struct RecordRow {
    pub activity: Activity,
    pub ds: Option<i64>,
    pub ts: Option<i64>,
    pub lat: i64,
    pub lng: i64,
    pub elevation: Option<i64>,
    pub heartrate: Option<i32>,
    pub temperature: Option<i32>,
}

/// The key of a workout's header and polygon rows.
pub open spec fn workout_key(a: Activity, ts: i64) -> (Activity, i64) {
    (a, ts)
}

/// The key of a record row.
pub open spec fn record_key(row: RecordRow) -> (Activity, Option<i64>, Option<i64>) {
    (row.activity, row.ds, row.ts)
}

/// The row persisted for one valid record of a workout.
pub open spec fn spec_record_row(a: Activity, rec: Record) -> RecordRow {
    let g = match rec.geopoint {
        Some(g) => g,
        None => GeoPoint { lat: 0, lng: 0 },
    };
    RecordRow {
        activity: a,
        ds: rec.ds,
        ts: rec.timestamp,
        lat: g.lat,
        lng: g.lng,
        elevation: rec.elevation,
        heartrate: rec.heartrate,
        temperature: rec.temperature,
    }
}

/// The mathematical contents of the store: each table as a map from
/// its unique key to the row contents.
pub ghost struct StoreView {
    pub headers: Map<(Activity, i64), Seq<char>>,
    pub geos: Map<(Activity, i64), Seq<char>>,
    pub records: Map<(Activity, Option<i64>, Option<i64>), RecordRow>,
}

/// The header map of a header-row sequence under insert-or-ignore:
/// the first row with a key wins.
pub open spec fn headers_map(rows: Seq<HeaderRow>) -> Map<(Activity, i64), Seq<char>>
    decreases rows.len(),
{
    if rows.len() == 0 {
        Map::empty()
    } else {
        let m = headers_map(rows.drop_last());
        let r = rows.last();
        if m.contains_key((r.activity, r.ds)) {
            m
        } else {
            m.insert((r.activity, r.ds), r.record_locations@)
        }
    }
}

/// The polygon map of a geo-row sequence under insert-or-ignore.
pub open spec fn geos_map(rows: Seq<GeoRow>) -> Map<(Activity, i64), Seq<char>>
    decreases rows.len(),
{
    if rows.len() == 0 {
        Map::empty()
    } else {
        let m = geos_map(rows.drop_last());
        let r = rows.last();
        if m.contains_key((r.activity, r.ds)) {
            m
        } else {
            m.insert((r.activity, r.ds), r.shape@)
        }
    }
}

/// The record map of a record-row sequence under insert-or-ignore.
pub open spec fn records_map(rows: Seq<RecordRow>) -> Map<
    (Activity, Option<i64>, Option<i64>),
    RecordRow,
>
    decreases rows.len(),
{
    if rows.len() == 0 {
        Map::empty()
    } else {
        let m = records_map(rows.drop_last());
        let r = rows.last();
        if m.contains_key(record_key(r)) {
            m
        } else {
            m.insert(record_key(r), r)
        }
    }
}

/// The in-memory model of the store: the three tables as row vectors,
/// viewed as the maps their unique keys induce.
pub struct Store {
    pub headers: Vec<HeaderRow>,
    pub geos: Vec<GeoRow>,
    pub records: Vec<RecordRow>,
}

impl View for Store {
    type V = StoreView;

    open spec fn view(&self) -> StoreView {
        StoreView {
            headers: headers_map(self.headers@),
            geos: geos_map(self.geos@),
            records: records_map(self.records@),
        }
    }
}

/// The record map after ingesting a workout's records in order: one
/// insert-or-ignore per valid record.
pub open spec fn spec_ingest_records(
    m: Map<(Activity, Option<i64>, Option<i64>), RecordRow>,
    a: Activity,
    recs: Seq<Record>,
) -> Map<(Activity, Option<i64>, Option<i64>), RecordRow>
    decreases recs.len(),
{
    if recs.len() == 0 {
        m
    } else {
        let m1 = spec_ingest_records(m, a, recs.drop_last());
        let rec = recs.last();
        if !rec.spec_valid() {
            m1
        } else {
            let row = spec_record_row(a, rec);
            if m1.contains_key(record_key(row)) {
                m1
            } else {
                m1.insert(record_key(row), row)
            }
        }
    }
}

/// The store contents after ingesting one workout: its header row and
/// polygon row under the workout key, and one row per valid record,
/// every insert ignoring an existing key.
pub open spec fn spec_ingest(s: StoreView, a: Activity, ts: i64, recs: Seq<Record>) -> StoreView {
    let key = workout_key(a, ts);
    let poly = ascii_chars(spec_geopoly(recs));
    StoreView {
        headers: if s.headers.contains_key(key) {
            s.headers
        } else {
            s.headers.insert(key, poly)
        },
        geos: if s.geos.contains_key(key) {
            s.geos
        } else {
            s.geos.insert(key, poly)
        },
        records: spec_ingest_records(s.records, a, recs),
    }
}

proof fn lemma_headers_map_key(rows: Seq<HeaderRow>, k: (Activity, i64))
    ensures
        headers_map(rows).contains_key(k) <==> exists|j: int|
            #![trigger rows[j]]
            0 <= j < rows.len() && (rows[j].activity, rows[j].ds) == k,
    decreases rows.len(),
{
    if rows.len() > 0 {
        lemma_headers_map_key(rows.drop_last(), k);
        if headers_map(rows).contains_key(k) {
            if headers_map(rows.drop_last()).contains_key(k) {
                let j0 = choose|j: int|
                    #![trigger rows.drop_last()[j]]
                    0 <= j < rows.drop_last().len() && (rows.drop_last()[j].activity, rows.drop_last()[j].ds) == k;
                assert(rows[j0] == rows.drop_last()[j0]);
            } else {
                assert((rows[rows.len() - 1].activity, rows[rows.len() - 1].ds) == k);
            }
        }
        if exists|j: int| #![trigger rows[j]] 0 <= j < rows.len() && (rows[j].activity, rows[j].ds) == k {
            let j0 = choose|j: int|
                #![trigger rows[j]]
                0 <= j < rows.len() && (rows[j].activity, rows[j].ds) == k;
            if j0 < rows.len() - 1 {
                assert(rows.drop_last()[j0] == rows[j0]);
                assert(headers_map(rows.drop_last()).contains_key(k));
            } else {
                assert((rows.last().activity, rows.last().ds) == k);
            }
            assert(headers_map(rows).contains_key(k));
        }
    }
}

proof fn lemma_geos_map_key(rows: Seq<GeoRow>, k: (Activity, i64))
    ensures
        geos_map(rows).contains_key(k) <==> exists|j: int|
            #![trigger rows[j]]
            0 <= j < rows.len() && (rows[j].activity, rows[j].ds) == k,
    decreases rows.len(),
{
    if rows.len() > 0 {
        lemma_geos_map_key(rows.drop_last(), k);
        if geos_map(rows).contains_key(k) {
            if geos_map(rows.drop_last()).contains_key(k) {
                let j0 = choose|j: int|
                    #![trigger rows.drop_last()[j]]
                    0 <= j < rows.drop_last().len() && (rows.drop_last()[j].activity, rows.drop_last()[j].ds) == k;
                assert(rows[j0] == rows.drop_last()[j0]);
            } else {
                assert((rows[rows.len() - 1].activity, rows[rows.len() - 1].ds) == k);
            }
        }
        if exists|j: int| #![trigger rows[j]] 0 <= j < rows.len() && (rows[j].activity, rows[j].ds) == k {
            let j0 = choose|j: int|
                #![trigger rows[j]]
                0 <= j < rows.len() && (rows[j].activity, rows[j].ds) == k;
            if j0 < rows.len() - 1 {
                assert(rows.drop_last()[j0] == rows[j0]);
                assert(geos_map(rows.drop_last()).contains_key(k));
            } else {
                assert((rows.last().activity, rows.last().ds) == k);
            }
            assert(geos_map(rows).contains_key(k));
        }
    }
}

proof fn lemma_records_map_key(rows: Seq<RecordRow>, k: (Activity, Option<i64>, Option<i64>))
    ensures
        records_map(rows).contains_key(k) <==> exists|j: int|
            #![trigger rows[j]]
            0 <= j < rows.len() && record_key(rows[j]) == k,
    decreases rows.len(),
{
    if rows.len() > 0 {
        lemma_records_map_key(rows.drop_last(), k);
        if records_map(rows).contains_key(k) {
            if records_map(rows.drop_last()).contains_key(k) {
                let j0 = choose|j: int|
                    #![trigger rows.drop_last()[j]]
                    0 <= j < rows.drop_last().len() && record_key(rows.drop_last()[j]) == k;
                assert(rows[j0] == rows.drop_last()[j0]);
            } else {
                assert(record_key(rows[rows.len() - 1]) == k);
            }
        }
        if exists|j: int| #![trigger rows[j]] 0 <= j < rows.len() && record_key(rows[j]) == k {
            let j0 = choose|j: int|
                #![trigger rows[j]]
                0 <= j < rows.len() && record_key(rows[j]) == k;
            if j0 < rows.len() - 1 {
                assert(rows.drop_last()[j0] == rows[j0]);
                assert(records_map(rows.drop_last()).contains_key(k));
            } else {
                assert(record_key(rows.last()) == k);
            }
            assert(records_map(rows).contains_key(k));
        }
    }
}

impl Store {
    /// An empty store, as schema creation leaves it.
    pub fn new() -> (s: Store)
        ensures
            s@.headers == Map::<(Activity, i64), Seq<char>>::empty(),
            s@.geos == Map::<(Activity, i64), Seq<char>>::empty(),
            s@.records == Map::<(Activity, Option<i64>, Option<i64>), RecordRow>::empty(),
    {
        Store { headers: Vec::new(), geos: Vec::new(), records: Vec::new() }
    }

    /// Whether a header row with this workout key exists.
    fn contains_header(&self, a: Activity, ds: i64) -> (r: bool)
        ensures
            r == self@.headers.contains_key((a, ds)),
    {
        proof {
            lemma_headers_map_key(self.headers@, (a, ds));
        }
        let n = self.headers.len();
        let mut i: usize = 0;
        while i < n
            invariant
                i <= n == self.headers@.len(),
                forall|j: int|
                    #![trigger self.headers@[j]]
                    0 <= j < i ==> (self.headers@[j].activity, self.headers@[j].ds) != (a, ds),
            decreases n - i,
        {
            let row = &self.headers[i];
            if row.activity == a && row.ds == ds {
                proof {
                    lemma_headers_map_key(self.headers@, (a, ds));
                }
                return true;
            }
            i = i + 1;
        }
        false
    }

    /// Whether a polygon row with this workout key exists.
    fn contains_geo(&self, a: Activity, ds: i64) -> (r: bool)
        ensures
            r == self@.geos.contains_key((a, ds)),
    {
        proof {
            lemma_geos_map_key(self.geos@, (a, ds));
        }
        let n = self.geos.len();
        let mut i: usize = 0;
        while i < n
            invariant
                i <= n == self.geos@.len(),
                forall|j: int|
                    #![trigger self.geos@[j]]
                    0 <= j < i ==> (self.geos@[j].activity, self.geos@[j].ds) != (a, ds),
            decreases n - i,
        {
            let row = &self.geos[i];
            if row.activity == a && row.ds == ds {
                proof {
                    lemma_geos_map_key(self.geos@, (a, ds));
                }
                return true;
            }
            i = i + 1;
        }
        false
    }

    /// Whether a record row with this key exists.
    fn contains_record(&self, k: (Activity, Option<i64>, Option<i64>)) -> (r: bool)
        ensures
            r == self@.records.contains_key(k),
    {
        proof {
            lemma_records_map_key(self.records@, k);
        }
        let n = self.records.len();
        let mut i: usize = 0;
        while i < n
            invariant
                i <= n == self.records@.len(),
                forall|j: int|
                    #![trigger self.records@[j]]
                    0 <= j < i ==> record_key(self.records@[j]) != k,
            decreases n - i,
        {
            let row = &self.records[i];
            let same = row.activity == k.0 && opt_i64_eq(&row.ds, &k.1) && opt_i64_eq(
                &row.ts,
                &k.2,
            );
            if same {
                proof {
                    lemma_records_map_key(self.records@, k);
                }
                return true;
            }
            i = i + 1;
        }
        false
    }

    /// Ingest one workout: insert-or-ignore its header row, its polygon
    /// row, and one row per valid record, in record order. Repeating
    /// the same workout changes nothing; the row maps afterwards are
    /// exactly [`spec_ingest`] of the maps before.
    pub fn ingest_workout(&mut self, w: &Workout)
        ensures
            final(self)@ == spec_ingest(old(self)@, w.activity, w.timestamp, w.records@),
    {
        let ghost key = workout_key(w.activity, w.timestamp);
        let ghost target = spec_ingest(old(self)@, w.activity, w.timestamp, w.records@);
        let poly = w.geopoly();
        if !self.contains_header(w.activity, w.timestamp) {
            let ghost before = self.headers@;
            self.headers.push(
                HeaderRow { activity: w.activity, ds: w.timestamp, record_locations: poly.clone() },
            );
            proof {
                assert(self.headers@.drop_last() =~= before);
            }
        }
        proof {
            assert(self@.headers == target.headers);
        }
        if !self.contains_geo(w.activity, w.timestamp) {
            let ghost before = self.geos@;
            self.geos.push(GeoRow { activity: w.activity, ds: w.timestamp, shape: poly });
            proof {
                assert(self.geos@.drop_last() =~= before);
            }
        }
        proof {
            assert(self@.geos == target.geos);
        }
        let ghost hdrs = self@.headers;
        let ghost gs = self@.geos;
        let ghost base = self@.records;
        let n = w.records.len();
        let mut i: usize = 0;
        proof {
            assert(w.records@.take(0) =~= Seq::<Record>::empty());
        }
        while i < n
            invariant
                i <= n == w.records@.len(),
                self@.headers == hdrs,
                self@.geos == gs,
                self@.records == spec_ingest_records(base, w.activity, w.records@.take(i as int)),
            decreases n - i,
        {
            proof {
                assert(w.records@.take(i + 1).drop_last() =~= w.records@.take(i as int));
                assert(w.records@.take(i + 1).last() == w.records@[i as int]);
            }
            let rec = &w.records[i];
            if rec.validate() {
                let g = match &rec.geopoint {
                    Some(g) => *g,
                    None => GeoPoint { lat: 0, lng: 0 },
                };
                let row = RecordRow {
                    activity: w.activity,
                    ds: rec.ds,
                    ts: rec.timestamp,
                    lat: g.lat,
                    lng: g.lng,
                    elevation: rec.elevation,
                    heartrate: rec.heartrate,
                    temperature: rec.temperature,
                };
                if !self.contains_record((row.activity, row.ds, row.ts)) {
                    let ghost before = self.records@;
                    self.records.push(row);
                    proof {
                        assert(self.records@.drop_last() =~= before);
                    }
                }
            }
            i = i + 1;
        }
        proof {
            assert(w.records@.take(n as int) =~= w.records@);
        }
    }
}

/// Keys present in the map stay present through ingestion.
proof fn lemma_fold_mono(
    m: Map<(Activity, Option<i64>, Option<i64>), RecordRow>,
    a: Activity,
    rs: Seq<Record>,
    k: (Activity, Option<i64>, Option<i64>),
)
    requires
        m.contains_key(k),
    ensures
        spec_ingest_records(m, a, rs).contains_key(k),
    decreases rs.len(),
{
    if rs.len() > 0 {
        lemma_fold_mono(m, a, rs.drop_last(), k);
    }
}

/// A key new after ingestion names some valid record of the batch.
proof fn lemma_fold_new(
    m: Map<(Activity, Option<i64>, Option<i64>), RecordRow>,
    a: Activity,
    rs: Seq<Record>,
    k: (Activity, Option<i64>, Option<i64>),
)
    requires
        spec_ingest_records(m, a, rs).contains_key(k),
        !m.contains_key(k),
    ensures
        exists|j: int|
            #![trigger rs[j]]
            0 <= j < rs.len() && rs[j].spec_valid() && record_key(spec_record_row(a, rs[j])) == k,
    decreases rs.len(),
{
    let m1 = spec_ingest_records(m, a, rs.drop_last());
    if m1.contains_key(k) {
        lemma_fold_new(m, a, rs.drop_last(), k);
        let j0 = choose|j: int|
            #![trigger rs.drop_last()[j]]
            0 <= j < rs.drop_last().len() && rs.drop_last()[j].spec_valid() && record_key(
                spec_record_row(a, rs.drop_last()[j]),
            ) == k;
        assert(rs[j0] == rs.drop_last()[j0]);
    } else {
        assert(rs.last() == rs[rs.len() - 1]);
        assert(rs[rs.len() - 1].spec_valid() && record_key(spec_record_row(a, rs[rs.len() - 1]))
            == k);
    }
}

/// Every valid record of the batch has its key present afterwards.
proof fn lemma_fold_covers(
    m: Map<(Activity, Option<i64>, Option<i64>), RecordRow>,
    a: Activity,
    rs: Seq<Record>,
)
    ensures
        forall|j: int|
            #![trigger rs[j]]
            0 <= j < rs.len() && rs[j].spec_valid() ==> spec_ingest_records(
                m,
                a,
                rs,
            ).contains_key(record_key(spec_record_row(a, rs[j]))),
    decreases rs.len(),
{
    if rs.len() > 0 {
        lemma_fold_covers(m, a, rs.drop_last());
        let m1 = spec_ingest_records(m, a, rs.drop_last());
        assert forall|j: int|
            0 <= j < rs.len() && #[trigger] rs[j].spec_valid() implies spec_ingest_records(
            m,
            a,
            rs,
        ).contains_key(record_key(spec_record_row(a, rs[j]))) by {
            if j < rs.len() - 1 {
                assert(rs.drop_last()[j] == rs[j]);
                assert(m1.contains_key(record_key(spec_record_row(a, rs[j]))));
            } else {
                assert(rs.last() == rs[j]);
            }
        }
    }
}

/// Ingestion of a batch whose valid keys are all present changes
/// nothing.
proof fn lemma_fold_noop(
    m: Map<(Activity, Option<i64>, Option<i64>), RecordRow>,
    a: Activity,
    rs: Seq<Record>,
)
    requires
        forall|j: int|
            #![trigger rs[j]]
            0 <= j < rs.len() && rs[j].spec_valid() ==> m.contains_key(
                record_key(spec_record_row(a, rs[j])),
            ),
    ensures
        spec_ingest_records(m, a, rs) == m,
    decreases rs.len(),
{
    if rs.len() > 0 {
        assert(forall|j: int|
            0 <= j < rs.len() - 1 ==> #[trigger] rs.drop_last()[j] == rs[j]);
        lemma_fold_noop(m, a, rs.drop_last());
        assert(rs.last() == rs[rs.len() - 1]);
    }
}

/// Inserting a key no record of the batch carries commutes with
/// ingesting the batch.
proof fn lemma_fold_insert(
    m: Map<(Activity, Option<i64>, Option<i64>), RecordRow>,
    a: Activity,
    rs: Seq<Record>,
    k: (Activity, Option<i64>, Option<i64>),
    v: RecordRow,
)
    requires
        forall|j: int|
            #![trigger rs[j]]
            0 <= j < rs.len() && rs[j].spec_valid() ==> record_key(spec_record_row(a, rs[j])) != k,
    ensures
        spec_ingest_records(m.insert(k, v), a, rs) == spec_ingest_records(m, a, rs).insert(k, v),
    decreases rs.len(),
{
    if rs.len() == 0 {
        assert(spec_ingest_records(m.insert(k, v), a, rs) == m.insert(k, v));
    } else {
        assert(forall|j: int|
            0 <= j < rs.len() - 1 ==> #[trigger] rs.drop_last()[j] == rs[j]);
        lemma_fold_insert(m, a, rs.drop_last(), k, v);
        let m1 = spec_ingest_records(m, a, rs.drop_last());
        let r = rs.last();
        assert(rs.last() == rs[rs.len() - 1]);
        if r.spec_valid() {
            let kk = record_key(spec_record_row(a, r));
            assert(kk != k);
            if !m1.contains_key(kk) {
                assert(m1.insert(k, v).insert(kk, spec_record_row(a, r)) =~= m1.insert(
                    kk,
                    spec_record_row(a, r),
                ).insert(k, v));
            }
        }
    }
}

/// Ingesting the same workout a second time changes nothing: the
/// header, polygon and record inserts all find their keys present.
/// This is the row-level idempotence of re-ingestion.
pub proof fn lemma_ingest_idempotent(s: StoreView, a: Activity, ts: i64, recs: Seq<Record>)
    ensures
        spec_ingest(spec_ingest(s, a, ts, recs), a, ts, recs) == spec_ingest(s, a, ts, recs),
{
    let s1 = spec_ingest(s, a, ts, recs);
    let s2 = spec_ingest(s1, a, ts, recs);
    assert(s1.headers.contains_key(workout_key(a, ts)));
    assert(s1.geos.contains_key(workout_key(a, ts)));
    lemma_fold_covers(s.records, a, recs);
    lemma_fold_noop(s1.records, a, recs);
    assert(s2 == s1);
}

/// All records of the sequence are stamped with this workout's
/// activity and reference epoch.
pub open spec fn records_stamped(recs: Seq<Record>, a: Activity, ts: i64) -> bool {
    forall|j: int|
        #![trigger recs[j]]
        0 <= j < recs.len() ==> recs[j].activity == Some(a) && recs[j].ds == Some(ts)
}

/// Ingesting two workouts with distinct keys, each with its records
/// stamped as the parser stamps them, yields the same store in either
/// order. With per-workout transactions this makes the final contents
/// — and so the final row counts — independent of the order in which
/// serialized writers commit, whatever the configured concurrency
/// limit.
pub proof fn lemma_ingest_commutes(
    s: StoreView,
    a1: Activity,
    ts1: i64,
    rs1: Seq<Record>,
    a2: Activity,
    ts2: i64,
    rs2: Seq<Record>,
)
    requires
        workout_key(a1, ts1) != workout_key(a2, ts2),
        records_stamped(rs1, a1, ts1),
        records_stamped(rs2, a2, ts2),
    ensures
        spec_ingest(spec_ingest(s, a1, ts1, rs1), a2, ts2, rs2) == spec_ingest(
            spec_ingest(s, a2, ts2, rs2),
            a1,
            ts1,
            rs1,
        ),
{
    let k1 = workout_key(a1, ts1);
    let k2 = workout_key(a2, ts2);
    let poly1 = ascii_chars(spec_geopoly(rs1));
    let poly2 = ascii_chars(spec_geopoly(rs2));
    let lhs = spec_ingest(spec_ingest(s, a1, ts1, rs1), a2, ts2, rs2);
    let rhs = spec_ingest(spec_ingest(s, a2, ts2, rs2), a1, ts1, rs1);
    // header and polygon maps: inserts under distinct keys commute
    if !s.headers.contains_key(k1) && !s.headers.contains_key(k2) {
        assert(s.headers.insert(k1, poly1).insert(k2, poly2) =~= s.headers.insert(
            k2,
            poly2,
        ).insert(k1, poly1));
    }
    if !s.geos.contains_key(k1) && !s.geos.contains_key(k2) {
        assert(s.geos.insert(k1, poly1).insert(k2, poly2) =~= s.geos.insert(k2, poly2).insert(
            k1,
            poly1,
        ));
    }
    // record maps: the two batches carry disjoint key sets
    lemma_records_commute(s.records, a1, ts1, rs1, a2, ts2, rs2);
    assert(lhs.headers =~= rhs.headers);
    assert(lhs.geos =~= rhs.geos);
    assert(lhs =~= rhs);
}

/// The record keys of two stamped batches under distinct workout keys
/// are disjoint, so their ingestions commute.
proof fn lemma_records_commute(
    m: Map<(Activity, Option<i64>, Option<i64>), RecordRow>,
    a1: Activity,
    ts1: i64,
    rs1: Seq<Record>,
    a2: Activity,
    ts2: i64,
    rs2: Seq<Record>,
)
    requires
        workout_key(a1, ts1) != workout_key(a2, ts2),
        records_stamped(rs1, a1, ts1),
        records_stamped(rs2, a2, ts2),
    ensures
        spec_ingest_records(spec_ingest_records(m, a1, rs1), a2, rs2) == spec_ingest_records(
            spec_ingest_records(m, a2, rs2),
            a1,
            rs1,
        ),
    decreases rs2.len(),
{
    let m1 = spec_ingest_records(m, a1, rs1);
    if rs2.len() == 0 {
    } else {
        let dl2 = rs2.drop_last();
        let r2 = rs2.last();
        assert(forall|j: int| 0 <= j < rs2.len() - 1 ==> #[trigger] dl2[j] == rs2[j]);
        assert(rs2.last() == rs2[rs2.len() - 1]);
        lemma_records_commute(m, a1, ts1, rs1, a2, ts2, dl2);
        let x = spec_ingest_records(m1, a2, dl2);
        let y = spec_ingest_records(m, a2, dl2);
        // x == spec_ingest_records(y, a1, rs1)
        if r2.spec_valid() {
            let k2 = record_key(spec_record_row(a2, r2));
            assert(k2.0 == a2 && k2.1 == Some(ts2));
            // no valid record of rs1 carries k2
            assert forall|j: int|
                0 <= j < rs1.len() && #[trigger] rs1[j].spec_valid() implies record_key(
                spec_record_row(a1, rs1[j]),
            ) != k2 by {
                assert(rs1[j].ds == Some(ts1));
            }
            if y.contains_key(k2) {
                lemma_fold_mono(y, a1, rs1, k2);
                assert(x.contains_key(k2));
            } else {
                // on the right: r2 is inserted into y, then rs1 folds over it
                lemma_fold_insert(y, a1, rs1, k2, spec_record_row(a2, r2));
                // on the left: x does not contain k2 either
                if x.contains_key(k2) {
                    if m1.contains_key(k2) {
                        if m.contains_key(k2) {
                            lemma_fold_mono(m, a2, dl2, k2);
                            assert(false);
                        } else {
                            lemma_fold_new(m, a1, rs1, k2);
                            let j0 = choose|j: int|
                                #![trigger rs1[j]]
                                0 <= j < rs1.len() && rs1[j].spec_valid() && record_key(
                                    spec_record_row(a1, rs1[j]),
                                ) == k2;
                            assert(false);
                        }
                    } else {
                        lemma_fold_new(m1, a2, dl2, k2);
                        let j0 = choose|j: int|
                            #![trigger dl2[j]]
                            0 <= j < dl2.len() && dl2[j].spec_valid() && record_key(
                                spec_record_row(a2, dl2[j]),
                            ) == k2;
                        assert(dl2[j0] == rs2[j0]);
                        assert(dl2[j0].ds == Some(ts2));
                        // the same record key would already be in y
                        lemma_fold_covers(m, a2, dl2);
                        assert(y.contains_key(k2));
                        assert(false);
                    }
                }
            }
        }
    }
}

/// Equality of optional integers.
fn opt_i64_eq(a: &Option<i64>, b: &Option<i64>) -> (r: bool)
    ensures
        r == (*a == *b),
{
    match (a, b) {
        (Some(x), Some(y)) => x == y,
        (None, None) => true,
        _ => false,
    }
}

} // verus!
