//! A curve: a node's throughput over time, as the file a surface reads:
//! `node` and `[[points]]` of `counted`, `observed_unix_nanos` and `value`.
//!
//! The file's fields are held here as values ([`CurveDocument`]); what is
//! written and what is read back are decided here. A counted kind no one is
//! called is skipped.

use vstd::prelude::*;
use vstd::string::*;
use crate::counted::{Counted, counted_named, counted_word, law_counted_word_names_it};
use crate::snapshot::Count;

verus! {

/// A node's curve, read or about to be written.
#[derive(Clone, Debug, Default, PartialEq, Eq)]
pub struct Curve {
    /// The scope whose series it is.
    pub node: String,
    /// One point per kind per observation, oldest first within a kind.
    pub points: Vec<Count>,
}

/// The curve's file, field for field.
#[derive(Clone, Debug, Default, PartialEq, Eq)]
pub struct CurveDocument {
    pub node: String,
    pub points: Vec<PointDocument>,
}

/// One point as the file writes it: its kind as the kind's word.
#[derive(Clone, Debug, Default, PartialEq, Eq)]
pub struct PointDocument {
    pub counted: String,
    pub observed_unix_nanos: i64,
    pub value: u64,
}

/// Whether `doc` is how the file writes `point`.
pub open spec fn point_written(point: Count, doc: PointDocument) -> bool {
    &&& doc.counted@ == counted_word(point.counted)
    &&& doc.observed_unix_nanos == point.observed_unix_nanos
    &&& doc.value == point.value
}

/// The points a file's entries read as at `node`: each of a known kind, in
/// order, at the curve's node, its window the instant it was observed; an
/// entry of a kind no one is called is skipped.
pub open spec fn points_read(node: String, docs: Seq<PointDocument>) -> Seq<Count>
    decreases docs.len(),
{
    if docs.len() == 0 {
        Seq::empty()
    } else {
        let doc = docs.last();
        match counted_named(doc.counted@) {
            Some(counted) => points_read(node, docs.drop_last()).push(
                Count {
                    scope: node,
                    counted,
                    value: doc.value,
                    window_start_unix_nanos: doc.observed_unix_nanos,
                    window_end_unix_nanos: doc.observed_unix_nanos,
                    observed_unix_nanos: doc.observed_unix_nanos,
                },
            ),
            None => points_read(node, docs.drop_last()),
        }
    }
}

/// Whether a point is one a curve's file carries whole: at the curve's
/// node, its window the instant it was observed.
pub open spec fn point_at_instant(node: String, point: Count) -> bool {
    &&& point.scope == node
    &&& point.window_start_unix_nanos == point.observed_unix_nanos
    &&& point.window_end_unix_nanos == point.observed_unix_nanos
}

impl Curve {
    /// The kinds a curve carries: what an operator watches over time.
    pub const KINDS: [Counted; 3] = [Counted::Streams, Counted::Messages, Counted::Bytes];

    /// The curve as the file writes it.
    pub fn document(&self) -> (r: CurveDocument)
        ensures
            r.node == self.node,
            r.points@.len() == self.points@.len(),
            forall|i: int|
                0 <= i < r.points@.len() ==> point_written(self.points@[i], #[trigger] r.points@[i]),
    {
        let mut points: Vec<PointDocument> = Vec::new();
        let mut i: usize = 0;
        while i < self.points.len()
            invariant
                i <= self.points@.len(),
                points@.len() == i,
                forall|q: int| 0 <= q < i ==> point_written(self.points@[q], #[trigger] points@[q]),
            decreases self.points@.len() - i,
        {
            let point = &self.points[i];
            points.push(
                PointDocument {
                    counted: point.counted.word().to_owned(),
                    observed_unix_nanos: point.observed_unix_nanos,
                    value: point.value,
                },
            );
            i = i + 1;
        }
        CurveDocument { node: self.node.clone(), points }
    }

    /// A curve read back from its file: every point of a known kind at the
    /// curve's node, its window the instant it was observed; a point of a
    /// kind no one is called is skipped.
    pub fn from_document(document: CurveDocument) -> (r: Curve)
        ensures
            r.node == document.node,
            r.points@ == points_read(document.node, document.points@),
    {
        let docs = &document.points;
        let mut points: Vec<Count> = Vec::new();
        let mut i: usize = 0;
        while i < docs.len()
            invariant
                i <= docs@.len(),
                points@ == points_read(document.node, docs@.take(i as int)),
            decreases docs@.len() - i,
        {
            let doc = &docs[i];
            assert(docs@.take(i + 1).drop_last() =~= docs@.take(i as int));
            assert(docs@.take(i + 1).last() == docs@[i as int]);
            match Counted::named(doc.counted.as_str()) {
                Some(counted) => {
                    points.push(
                        Count {
                            scope: document.node.clone(),
                            counted,
                            value: doc.value,
                            window_start_unix_nanos: doc.observed_unix_nanos,
                            window_end_unix_nanos: doc.observed_unix_nanos,
                            observed_unix_nanos: doc.observed_unix_nanos,
                        },
                    );
                },
                None => {},
            }
            i = i + 1;
        }
        assert(docs@.take(i as int) =~= docs@);
        Curve { node: document.node, points }
    }
}

/// A curve crosses its file whole: the file written for a curve whose
/// points are at its node, each window the instant it was observed, reads
/// back as the same points.
pub proof fn law_curve_reads_back(curve: Curve, document: CurveDocument)
    requires
        forall|i: int| 0 <= i < curve.points@.len() ==> point_at_instant(curve.node, #[trigger] curve.points@[i]),
        document.node == curve.node,
        document.points@.len() == curve.points@.len(),
        forall|i: int|
            0 <= i < document.points@.len() ==> point_written(curve.points@[i], #[trigger] document.points@[i]),
    ensures
        points_read(document.node, document.points@) == curve.points@,
{
    lemma_points_read_back(curve.node, curve.points@, document.points@);
}

/// Points written one for one read back as themselves.
proof fn lemma_points_read_back(node: String, points: Seq<Count>, docs: Seq<PointDocument>)
    requires
        forall|i: int| 0 <= i < points.len() ==> point_at_instant(node, #[trigger] points[i]),
        docs.len() == points.len(),
        forall|i: int| 0 <= i < docs.len() ==> point_written(points[i], #[trigger] docs[i]),
    ensures
        points_read(node, docs) == points,
    decreases docs.len(),
{
    if docs.len() > 0 {
        let last = points.last();
        assert(point_at_instant(node, points[points.len() - 1]));
        assert(point_written(points[points.len() - 1], docs[docs.len() - 1]));
        law_counted_word_names_it(last.counted);
        lemma_points_read_back(node, points.drop_last(), docs.drop_last());
        assert(points.drop_last().push(last) =~= points);
    }
}

} // verus!
