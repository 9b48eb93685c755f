//! Workouts and the polygon encoding of their trajectory.
//!
//! A workout is one ingested file's aggregate: its activity, the
//! reference timestamp derived from the file name, and the ordered
//! sample records. The polygon literal serializes the trajectory as a
//! single-quoted bracketed list of `[lat,lng]` pairs, one per record in
//! sequence order. Policy, kept independent of the row validator:
//! every record appears in the polygon, a record without a position as
//! the placeholder `[0.0,0.0]`.

use vstd::prelude::*;

use crate::activity::Activity;
use crate::record::Record;

verus! {

use crate::num::spec_format_fixed;
use crate::num::push_fixed;
use crate::num::ascii_seq;
use crate::num::lemma_format_fixed_ascii;
use crate::num::lemma_ascii_concat;

/// One ingested file's aggregate. The record sequence order is the
/// trajectory order; a workout is classified before construction, so
/// its activity is never `Unknown`.
#[derive(Clone, Debug)]
pub struct Workout {
    pub activity: Activity,
    pub timestamp: i64,
    pub records: Vec<Record>,
}

/// The placeholder pair encoded for a record without a position.
pub open spec fn placeholder_coord() -> Seq<u8> {
    seq![
        ('[' as u8),
        ('0' as u8),
        ('.' as u8),
        ('0' as u8),
        (',' as u8),
        ('0' as u8),
        ('.' as u8),
        ('0' as u8),
        (']' as u8),
    ]
}

/// The `[lat,lng]` text of one record's position.
pub open spec fn spec_coord_text(rec: Record) -> Seq<u8> {
    match rec.geopoint {
        Some(g) => seq![('[' as u8)] + spec_format_fixed(g.lat as int) + seq![(',' as u8)]
            + spec_format_fixed(g.lng as int) + seq![(']' as u8)],
        None => placeholder_coord(),
    }
}

/// The comma-joined coordinate texts of a record sequence, in order.
pub open spec fn spec_coords_join(records: Seq<Record>) -> Seq<u8>
    decreases records.len(),
{
    if records.len() == 0 {
        Seq::empty()
    } else if records.len() == 1 {
        spec_coord_text(records[0])
    } else {
        spec_coords_join(records.drop_last()) + seq![(',' as u8)] + spec_coord_text(records.last())
    }
}

/// The whole polygon literal: `'[ `, the joined pairs, `]'`.
pub open spec fn spec_geopoly(records: Seq<Record>) -> Seq<u8> {
    seq![('\'' as u8), ('[' as u8), (' ' as u8)] + spec_coords_join(records) + seq![
        (']' as u8),
        ('\'' as u8),
    ]
}

/// The characters of an ASCII byte sequence.
pub open spec fn ascii_chars(b: Seq<u8>) -> Seq<char> {
    Seq::new(b.len(), |i: int| b[i] as char)
}

/// Relies on `String::from_utf8`: an all-ASCII byte vector is valid
/// UTF-8 and converts to the string of exactly those characters.
#[verifier::external_body]
pub(crate) fn ascii_string(v: Vec<u8>) -> (r: String)
    requires
        ascii_seq(v@),
    ensures
        r@ == ascii_chars(v@),
{
    String::from_utf8(v).unwrap_or_default()
}

proof fn lemma_coord_text_ascii(rec: Record)
    ensures
        ascii_seq(spec_coord_text(rec)),
{
    match rec.geopoint {
        Some(g) => {
            lemma_format_fixed_ascii(g.lat as int);
            lemma_format_fixed_ascii(g.lng as int);
            let a = seq![('[' as u8)];
            let c = seq![(',' as u8)];
            let z = seq![(']' as u8)];
            lemma_ascii_concat(a, spec_format_fixed(g.lat as int));
            lemma_ascii_concat(a + spec_format_fixed(g.lat as int), c);
            lemma_ascii_concat(
                a + spec_format_fixed(g.lat as int) + c,
                spec_format_fixed(g.lng as int),
            );
            lemma_ascii_concat(
                a + spec_format_fixed(g.lat as int) + c + spec_format_fixed(g.lng as int),
                z,
            );
        },
        None => {
        },
    }
}

proof fn lemma_coords_join_ascii(records: Seq<Record>)
    ensures
        ascii_seq(spec_coords_join(records)),
    decreases records.len(),
{
    if records.len() == 1 {
        lemma_coord_text_ascii(records[0]);
    } else if records.len() > 1 {
        lemma_coords_join_ascii(records.drop_last());
        lemma_coord_text_ascii(records.last());
        lemma_ascii_concat(spec_coords_join(records.drop_last()), seq![(',' as u8)]);
        lemma_ascii_concat(
            spec_coords_join(records.drop_last()) + seq![(',' as u8)],
            spec_coord_text(records.last()),
        );
    }
}

proof fn lemma_geopoly_ascii(records: Seq<Record>)
    ensures
        ascii_seq(spec_geopoly(records)),
{
    lemma_coords_join_ascii(records);
    lemma_ascii_concat(seq![('\'' as u8), ('[' as u8), (' ' as u8)], spec_coords_join(records));
    lemma_ascii_concat(
        seq![('\'' as u8), ('[' as u8), (' ' as u8)] + spec_coords_join(records),
        seq![(']' as u8), ('\'' as u8)],
    );
}

/// Append one record's `[lat,lng]` text (or the placeholder).
fn push_coord(buf: &mut Vec<u8>, rec: &Record)
    ensures
        final(buf)@ == old(buf)@ + spec_coord_text(*rec),
{
    match &rec.geopoint {
        Some(g) => {
            buf.push('[' as u8);
            push_fixed(buf, g.lat);
            buf.push(',' as u8);
            push_fixed(buf, g.lng);
            buf.push(']' as u8);
            proof {
                assert(buf@ =~= old(buf)@ + spec_coord_text(*rec));
            }
        },
        None => {
            buf.push('[' as u8);
            buf.push('0' as u8);
            buf.push('.' as u8);
            buf.push('0' as u8);
            buf.push(',' as u8);
            buf.push('0' as u8);
            buf.push('.' as u8);
            buf.push('0' as u8);
            buf.push(']' as u8);
            proof {
                assert(buf@ =~= old(buf)@ + spec_coord_text(*rec));
            }
        },
    }
}

impl Workout {
    /// Encode the trajectory as the polygon literal
    /// `'[ [lat,lng],[lat,lng],...]'`: one pair per record, in record
    /// order, `[0.0,0.0]` for a record without a position, and the
    /// empty list body for a workout without records.
    pub fn geopoly(&self) -> (r: String)
        ensures
            r@ == ascii_chars(spec_geopoly(self.records@)),
    {
        let mut buf: Vec<u8> = Vec::new();
        buf.push('\'' as u8);
        buf.push('[' as u8);
        buf.push(' ' as u8);
        let ghost pre = seq![('\'' as u8), ('[' as u8), (' ' as u8)];
        proof {
            assert(buf@ =~= pre + spec_coords_join(self.records@.take(0)));
        }
        let n = self.records.len();
        let mut i: usize = 0;
        while i < n
            invariant
                i <= n,
                n == self.records@.len(),
                buf@ == pre + spec_coords_join(self.records@.take(i as int)),
                pre == seq![('\'' as u8), ('[' as u8), (' ' as u8)],
            decreases n - i,
        {
            if i > 0 {
                buf.push(',' as u8);
            }
            push_coord(&mut buf, &self.records[i]);
            i = i + 1;
            proof {
                let t = self.records@.take(i as int);
                assert(t.drop_last() =~= self.records@.take(i as int - 1));
                assert(t.last() == self.records@[i as int - 1]);
                assert(buf@ =~= pre + spec_coords_join(t));
            }
        }
        buf.push(']' as u8);
        buf.push('\'' as u8);
        proof {
            assert(self.records@.take(n as int) =~= self.records@);
            assert(buf@ =~= spec_geopoly(self.records@));
            lemma_geopoly_ascii(self.records@);
        }
        ascii_string(buf)
    }
}

} // verus!
