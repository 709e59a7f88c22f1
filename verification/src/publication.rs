//! A publication: a [`Snapshot`] as the file a surface reads — `source`,
//! `node`, `[[records]]`, `[[counts]]` and a roll's `[run]` — and read back.
//!
//! The file's fields are held here as values ([`PublicationDocument`]);
//! what is written and what is read back are decided here. A mood no one
//! is called reads as `Stressed`, so it shows and is looked at; a counted kind
//! no one is called is skipped, because a count of it is no count of
//! anything the reader knows.

use vstd::prelude::*;
use vstd::string::*;
use crate::counted::{Counted, counted_named, counted_word, law_counted_word_names_it};
use crate::run::{Run, same_optional_run};
use crate::snapshot::{
    Count, HealthRecord, Snapshot, count_map, counts_beneath, health_answer, measured, record_map,
};
use crate::health::{Health, health_read, health_word, law_health_word_names_it};
use crate::text::{bytes_of, same_text};

verus! {

/// One publication, read or about to be written.
#[derive(Clone, Debug, Default, PartialEq, Eq)]
pub struct Publication {
    /// Who published it, in the publisher's words.
    pub source: String,
    /// The scope it publishes at: a node's, or a roll's cluster.
    pub node: String,
    /// The health records beneath `node`, worst first.
    pub records: Vec<HealthRecord>,
    /// The counts: each at the scope it was recorded at, or at `node` where
    /// the publisher summed them there.
    pub counts: Vec<Count>,
    /// What the run was started with, when the publisher says.
    pub run: Option<Run>,
}

/// The publication's file, field for field.
#[derive(Clone, Debug, Default, PartialEq, Eq)]
pub struct PublicationDocument {
    pub source: String,
    pub node: String,
    pub records: Vec<RecordDocument>,
    pub counts: Vec<CountDocument>,
    pub run: Option<Run>,
}

/// One record as the file writes it: its mood by its word.
#[derive(Clone, Debug, Default, PartialEq, Eq)]
pub struct RecordDocument {
    pub scope: String,
    pub state: String,
    pub severity: u8,
    pub evidence: String,
    pub observed_unix_nanos: i64,
}

/// One count as the file writes it: its kind by its word, and its scope
/// empty where it is the publication's own.
#[derive(Clone, Debug, Default, PartialEq, Eq)]
pub struct CountDocument {
    pub counted: String,
    pub value: u64,
    pub scope: String,
}

/// Every kind, in the order a publication lists them.
pub open spec fn all_counted() -> Seq<Counted> {
    seq![
        Counted::Streams,
        Counted::Messages,
        Counted::Journeys,
        Counted::Bytes,
        Counted::Retrying,
        Counted::Failed,
    ]
}

/// The kinds among `kinds`, in order, of which something is counted at or
/// beneath `scope`.
pub open spec fn kinds_counted(kinds: Seq<Counted>, counts: Seq<Count>, scope: Seq<u8>) -> Seq<Counted>
    decreases kinds.len(),
{
    if kinds.len() == 0 {
        Seq::empty()
    } else if counts_beneath(counts, scope, kinds.last()).len() > 0 {
        kinds_counted(kinds.drop_last(), counts, scope).push(kinds.last())
    } else {
        kinds_counted(kinds.drop_last(), counts, scope)
    }
}

/// Whether `doc` is how the file writes `record`.
pub open spec fn record_written(record: HealthRecord, doc: RecordDocument) -> bool {
    &&& doc.scope == record.scope
    &&& doc.state@ == health_word(record.health)
    &&& doc.severity == record.severity
    &&& doc.evidence == record.evidence
    &&& doc.observed_unix_nanos == record.observed_unix_nanos
}

/// Whether `doc` is how a publication at `node` writes `count`: a count at
/// `node` itself is written without a scope.
pub open spec fn count_written(node: String, count: Count, doc: CountDocument) -> bool {
    &&& doc.counted@ == counted_word(count.counted)
    &&& doc.value == count.value
    &&& if count.scope@ == node@ {
        doc.scope@ == Seq::<char>::empty()
    } else {
        doc.scope == count.scope
    }
}

/// The record a file's entry reads as: a mood no one is called as
/// `Stressed`.
pub open spec fn record_read(doc: RecordDocument) -> HealthRecord {
    HealthRecord {
        scope: doc.scope,
        health: health_read(doc.state@),
        severity: doc.severity,
        evidence: doc.evidence,
        observed_unix_nanos: doc.observed_unix_nanos,
    }
}

/// The records a file's entries read as, in order.
pub open spec fn records_read(docs: Seq<RecordDocument>) -> Seq<HealthRecord> {
    docs.map_values(|doc: RecordDocument| record_read(doc))
}

/// When the publisher last looked: the newest record's observation, or 0
/// when there are no records.
pub open spec fn newest_observed(docs: Seq<RecordDocument>) -> i64
    decreases docs.len(),
{
    if docs.len() == 0 {
        0
    } else if docs.len() == 1 {
        docs[0].observed_unix_nanos
    } else if docs.last().observed_unix_nanos > newest_observed(docs.drop_last()) {
        docs.last().observed_unix_nanos
    } else {
        newest_observed(docs.drop_last())
    }
}

/// The counts a file's entries read as at `node`, dated `newest`: each of
/// a known kind, in order, at its scope or, written without one, at
/// `node`; an entry of a kind no one is called is skipped.
pub open spec fn counts_read(node: String, newest: i64, docs: Seq<CountDocument>) -> Seq<Count>
    decreases docs.len(),
{
    if docs.len() == 0 {
        Seq::empty()
    } else {
        let doc = docs.last();
        match counted_named(doc.counted@) {
            Some(counted) => counts_read(node, newest, docs.drop_last()).push(
                Count {
                    scope: if doc.scope@.len() == 0 {
                        node
                    } else {
                        doc.scope
                    },
                    counted,
                    value: doc.value,
                    window_start_unix_nanos: newest,
                    window_end_unix_nanos: newest,
                    observed_unix_nanos: newest,
                },
            ),
            None => counts_read(node, newest, docs.drop_last()),
        }
    }
}

impl Publication {
    /// A roll's publication: the records beneath `node` and every kind summed
    /// at `node`.
    pub fn of(source: &str, node: &str, snapshot: &Snapshot) -> (r: Publication)
        requires
            snapshot.wf(),
            forall|counted: Counted|
                value_within(snapshot.count_seq(), node.spec_bytes(), counted),
        ensures
            r.source@ == source@,
            r.node@ == node@,
            r.run is None,
            health_answer(snapshot.health_seq(), node.spec_bytes(), r.records@),
            r.counts@.len() == kinds_counted(all_counted(), snapshot.count_seq(), node.spec_bytes()).len(),
            forall|i: int|
                0 <= i < r.counts@.len() ==> measured(
                    snapshot.count_seq(),
                    node@,
                    kinds_counted(all_counted(), snapshot.count_seq(), node.spec_bytes())[i],
                    Some(#[trigger] r.counts@[i]),
                ),
    {
        let mut bare = Self::bare(source, node, snapshot);
        let ghost all = snapshot.count_seq();
        let ghost sb = node.spec_bytes();
        let kinds = Counted::ALL;
        assert(kinds@ =~= all_counted());
        let mut counts: Vec<Count> = Vec::new();
        let mut i: usize = 0;
        while i < 6
            invariant
                i <= 6,
                kinds@ == all_counted(),
                snapshot.wf(),
                all == snapshot.count_seq(),
                sb == node.spec_bytes(),
                forall|counted: Counted| value_within(all, sb, counted),
                counts@.len() == kinds_counted(all_counted().take(i as int), all, sb).len(),
                forall|q: int|
                    0 <= q < counts@.len() ==> measured(
                        all,
                        node@,
                        kinds_counted(all_counted().take(i as int), all, sb)[q],
                        Some(#[trigger] counts@[q]),
                    ),
            decreases 6 - i,
        {
            let counted = kinds[i];
            let ghost before = kinds_counted(all_counted().take(i as int), all, sb);
            assert(all_counted().take(i + 1).drop_last() =~= all_counted().take(i as int));
            assert(all_counted().take(i + 1).last() == counted);
            assert(value_within(all, sb, counted));
            let ghost prev = counts@;
            let found = snapshot.measure(node, counted);
            match found {
                Some(count) => {
                    counts.push(count);
                    assert forall|q: int| 0 <= q < counts@.len() implies measured(
                        all,
                        node@,
                        kinds_counted(all_counted().take(i + 1), all, sb)[q],
                        Some(#[trigger] counts@[q]),
                    ) by {
                        if q < before.len() {
                            assert(counts@[q] == prev[q]);
                        }
                    }
                },
                None => {},
            }
            i = i + 1;
        }
        assert(all_counted().take(6) =~= all_counted());
        bare.counts = counts;
        bare
    }

    /// A node's own publication: the records beneath `node` and every count
    /// at the scope it was recorded at.
    pub fn whole(source: &str, node: &str, snapshot: &Snapshot) -> (r: Publication)
        requires
            snapshot.wf(),
        ensures
            r.source@ == source@,
            r.node@ == node@,
            r.run is None,
            health_answer(snapshot.health_seq(), node.spec_bytes(), r.records@),
            r.counts@ == snapshot.count_seq(),
    {
        let mut bare = Self::bare(source, node, snapshot);
        let all = snapshot.all_counts();
        let mut counts: Vec<Count> = Vec::new();
        let mut i: usize = 0;
        while i < all.len()
            invariant
                i <= all@.len(),
                counts@ == all@.take(i as int),
            decreases all@.len() - i,
        {
            counts.push(all[i].duplicate());
            assert(counts@ =~= all@.take(i + 1));
            i = i + 1;
        }
        assert(all@.take(i as int) =~= all@);
        bare.counts = counts;
        bare
    }

    fn bare(source: &str, node: &str, snapshot: &Snapshot) -> (r: Publication)
        requires
            snapshot.wf(),
        ensures
            r.source@ == source@,
            r.node@ == node@,
            r.run is None,
            health_answer(snapshot.health_seq(), node.spec_bytes(), r.records@),
            r.counts@.len() == 0,
    {
        Publication {
            source: source.to_owned(),
            node: node.to_owned(),
            records: snapshot.health(node),
            counts: Vec::new(),
            run: None,
        }
    }

    /// The same publication saying what its run was started with.
    pub fn with_run(self, run: Option<Run>) -> (r: Publication)
        ensures
            r.source == self.source,
            r.node == self.node,
            r.records == self.records,
            r.counts == self.counts,
            r.run == run,
    {
        Publication { run, ..self }
    }

    /// The publication as the file writes it: each mood and kind by its
    /// word, and a count at `node` itself without a scope, as a roll's sums
    /// always were.
    pub fn document(&self) -> (r: PublicationDocument)
        ensures
            r.source == self.source,
            r.node == self.node,
            r.records@.len() == self.records@.len(),
            forall|i: int|
                0 <= i < r.records@.len() ==> record_written(self.records@[i], #[trigger] r.records@[i]),
            r.counts@.len() == self.counts@.len(),
            forall|i: int|
                0 <= i < r.counts@.len() ==> count_written(self.node, self.counts@[i], #[trigger] r.counts@[i]),
            same_optional_run(r.run, self.run),
    {
        let mut records: Vec<RecordDocument> = Vec::new();
        let mut i: usize = 0;
        while i < self.records.len()
            invariant
                i <= self.records@.len(),
                records@.len() == i,
                forall|q: int| 0 <= q < i ==> record_written(self.records@[q], #[trigger] records@[q]),
            decreases self.records@.len() - i,
        {
            let record = &self.records[i];
            records.push(
                RecordDocument {
                    scope: record.scope.clone(),
                    state: record.health.word().to_owned(),
                    severity: record.severity,
                    evidence: record.evidence.clone(),
                    observed_unix_nanos: record.observed_unix_nanos,
                },
            );
            i = i + 1;
        }
        let mut counts: Vec<CountDocument> = Vec::new();
        let mut j: usize = 0;
        proof {
            reveal_strlit("");
        }
        while j < self.counts.len()
            invariant
                j <= self.counts@.len(),
                counts@.len() == j,
                ""@ == Seq::<char>::empty(),
                forall|q: int| 0 <= q < j ==> count_written(self.node, self.counts@[q], #[trigger] counts@[q]),
            decreases self.counts@.len() - j,
        {
            let count = &self.counts[j];
            let scope = if same_text(count.scope.as_str(), self.node.as_str()) {
                String::new()
            } else {
                count.scope.clone()
            };
            counts.push(CountDocument { counted: count.counted.word().to_owned(), value: count.value, scope });
            j = j + 1;
        }
        let run = match &self.run {
            Some(run) => Some(run.duplicate()),
            None => None,
        };
        PublicationDocument {
            source: self.source.clone(),
            node: self.node.clone(),
            records,
            counts,
            run,
        }
    }

    /// A publication read back from its file: each record with a mood no
    /// one is called as `Stressed`; each count of a known kind at its scope or,
    /// written without one, at the publication's node, dated by the newest
    /// record, which is when the publisher last looked.
    pub fn from_document(document: PublicationDocument) -> (r: Publication)
        ensures
            r.source == document.source,
            r.node == document.node,
            r.records@ == records_read(document.records@),
            r.counts@ == counts_read(
                document.node,
                newest_observed(document.records@),
                document.counts@,
            ),
            r.run == document.run,
    {
        let docs = &document.records;
        let mut newest: i64 = 0;
        let mut records: Vec<HealthRecord> = Vec::new();
        let mut i: usize = 0;
        while i < docs.len()
            invariant
                i <= docs@.len(),
                newest == newest_observed(docs@.take(i as int)),
                records@ == records_read(docs@.take(i as int)),
            decreases docs@.len() - i,
        {
            let doc = &docs[i];
            assert(docs@.take(i + 1).drop_last() =~= docs@.take(i as int));
            assert(docs@.take(i + 1).last() == docs@[i as int]);
            if i == 0 || doc.observed_unix_nanos > newest {
                newest = doc.observed_unix_nanos;
            }
            records.push(
                HealthRecord {
                    scope: doc.scope.clone(),
                    health: Health::read(doc.state.as_str()),
                    severity: doc.severity,
                    evidence: doc.evidence.clone(),
                    observed_unix_nanos: doc.observed_unix_nanos,
                },
            );
            assert(records@ =~= records_read(docs@.take(i + 1)));
            i = i + 1;
        }
        assert(docs@.take(i as int) =~= docs@);
        let entries = &document.counts;
        let mut counts: Vec<Count> = Vec::new();
        let mut j: usize = 0;
        proof {
            reveal_strlit("");
        }
        while j < entries.len()
            invariant
                j <= entries@.len(),
                ""@ == Seq::<char>::empty(),
                counts@ == counts_read(document.node, newest, entries@.take(j as int)),
            decreases entries@.len() - j,
        {
            let entry = &entries[j];
            let ghost prev = counts@;
            assert(entries@.take(j + 1).drop_last() =~= entries@.take(j as int));
            assert(entries@.take(j + 1).last() == entries@[j as int]);
            match Counted::named(entry.counted.as_str()) {
                Some(counted) => {
                    assert(entry.scope@.len() == 0 ==> entry.scope@ =~= ""@);
                    let scope = if same_text(entry.scope.as_str(), "") {
                        document.node.clone()
                    } else {
                        entry.scope.clone()
                    };
                    counts.push(
                        Count {
                            scope,
                            counted,
                            value: entry.value,
                            window_start_unix_nanos: newest,
                            window_end_unix_nanos: newest,
                            observed_unix_nanos: newest,
                        },
                    );
                },
                None => {},
            }
            assert(counts@ =~= counts_read(document.node, newest, entries@.take(j + 1)));
            j = j + 1;
        }
        assert(entries@.take(j as int) =~= entries@);
        Publication {
            source: document.source,
            node: document.node,
            records,
            counts,
            run: document.run,
        }
    }

    /// The records and counts as a snapshot, for a publisher assembling
    /// several: each record published at its scope and each count at its
    /// scope and kind, a later one replacing an earlier, nothing paused.
    pub fn snapshot(&self) -> (r: Snapshot)
        ensures
            r.wf(),
            r.health_map() == record_map(self.records@),
            r.counts_map() == count_map(self.counts@),
            r.paused_map() == Map::<Seq<char>, HealthRecord>::empty(),
    {
        let mut snapshot = Snapshot::new();
        let mut i: usize = 0;
        while i < self.records.len()
            invariant
                i <= self.records@.len(),
                snapshot.wf(),
                snapshot.health_map() == record_map(self.records@.take(i as int)),
                snapshot.counts_map() == Map::<(Seq<char>, Counted), Count>::empty(),
                snapshot.paused_map() == Map::<Seq<char>, HealthRecord>::empty(),
            decreases self.records@.len() - i,
        {
            assert(self.records@.take(i + 1).drop_last() =~= self.records@.take(i as int));
            snapshot.record_health(self.records[i].duplicate());
            i = i + 1;
        }
        assert(self.records@.take(i as int) =~= self.records@);
        let mut j: usize = 0;
        while j < self.counts.len()
            invariant
                j <= self.counts@.len(),
                snapshot.wf(),
                snapshot.health_map() == record_map(self.records@),
                snapshot.counts_map() == count_map(self.counts@.take(j as int)),
                snapshot.paused_map() == Map::<Seq<char>, HealthRecord>::empty(),
            decreases self.counts@.len() - j,
        {
            assert(self.counts@.take(j + 1).drop_last() =~= self.counts@.take(j as int));
            snapshot.record_count(self.counts[j].duplicate());
            j = j + 1;
        }
        assert(self.counts@.take(j as int) =~= self.counts@);
        snapshot
    }
}

/// Whether a count's scope crosses a publication's file at `node`: it is
/// `node` itself, or a scope of its own — a count with no scope reads back
/// at `node`.
pub open spec fn scope_crosses(node: String, count: Count) -> bool {
    count.scope == node || (count.scope@.len() > 0 && count.scope@ != node@)
}

/// A count dated `newest`: its window and its observation that instant.
pub open spec fn dated(count: Count, newest: i64) -> Count {
    Count {
        scope: count.scope,
        counted: count.counted,
        value: count.value,
        window_start_unix_nanos: newest,
        window_end_unix_nanos: newest,
        observed_unix_nanos: newest,
    }
}

/// A publication crosses its file whole: the file written for it reads
/// back as the same records, and as the same counts dated by the newest
/// record, when the publisher last looked — each where its scope is the
/// publication's node or a scope of its own.
pub proof fn law_publication_reads_back(publication: Publication, document: PublicationDocument)
    requires
        document.node == publication.node,
        document.records@.len() == publication.records@.len(),
        forall|i: int|
            0 <= i < document.records@.len() ==> record_written(
                publication.records@[i],
                #[trigger] document.records@[i],
            ),
        document.counts@.len() == publication.counts@.len(),
        forall|i: int|
            0 <= i < document.counts@.len() ==> count_written(
                publication.node,
                publication.counts@[i],
                #[trigger] document.counts@[i],
            ),
        forall|i: int|
            0 <= i < publication.counts@.len() ==> scope_crosses(
                publication.node,
                #[trigger] publication.counts@[i],
            ),
    ensures
        records_read(document.records@) == publication.records@,
        counts_read(document.node, newest_observed(document.records@), document.counts@)
            == publication.counts@.map_values(
            |count: Count| dated(count, newest_observed(document.records@)),
        ),
{
    assert forall|i: int| 0 <= i < publication.records@.len() implies #[trigger] records_read(
        document.records@,
    )[i] == publication.records@[i] by {
        assert(record_written(publication.records@[i], document.records@[i]));
        law_health_word_names_it(publication.records@[i].health);
    }
    assert(records_read(document.records@) =~= publication.records@);
    lemma_counts_read_back(
        publication.node,
        newest_observed(document.records@),
        publication.counts@,
        document.counts@,
    );
}

/// Counts written one for one read back as themselves, dated `newest`.
proof fn lemma_counts_read_back(node: String, newest: i64, counts: Seq<Count>, docs: Seq<CountDocument>)
    requires
        docs.len() == counts.len(),
        forall|i: int| 0 <= i < docs.len() ==> count_written(node, counts[i], #[trigger] docs[i]),
        forall|i: int| 0 <= i < counts.len() ==> scope_crosses(node, #[trigger] counts[i]),
    ensures
        counts_read(node, newest, docs) == counts.map_values(|count: Count| dated(count, newest)),
    decreases docs.len(),
{
    if docs.len() > 0 {
        let last = counts.last();
        assert(count_written(node, counts[counts.len() - 1], docs[docs.len() - 1]));
        assert(scope_crosses(node, counts[counts.len() - 1]));
        law_counted_word_names_it(last.counted);
        lemma_counts_read_back(node, newest, counts.drop_last(), docs.drop_last());
        assert(counts.drop_last().map_values(|count: Count| dated(count, newest)).push(
            dated(last, newest),
        ) =~= counts.map_values(|count: Count| dated(count, newest)));
    } else {
        assert(counts.map_values(|count: Count| dated(count, newest)) =~= Seq::<Count>::empty());
    }
}

/// Whether the counts of one kind at or beneath `scope` sum within a
/// `u64`.
pub open spec fn value_within(counts: Seq<Count>, scope: Seq<u8>, counted: Counted) -> bool {
    crate::snapshot::value_sum(counts_beneath(counts, scope, counted)) <= u64::MAX
}

} // verus!
