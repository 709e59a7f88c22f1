use xmip_core_observe::counted::Counted;
use xmip_core_observe::publication::{CountDocument, Publication, PublicationDocument, RecordDocument};
use xmip_core_observe::run::Run;
use xmip_core_observe::health::Health;
use xmip_core_observe::snapshot::{Count, HealthRecord, Snapshot};

fn record(scope: &str, health: Health, observed: i64) -> HealthRecord {
    HealthRecord {
        scope: scope.to_string(),
        health,
        severity: if health == Health::Fine { 0 } else { 60 },
        evidence: "said".to_string(),
        observed_unix_nanos: observed,
    }
}

fn count(scope: &str, counted: Counted, value: u64) -> Count {
    Count {
        scope: scope.to_string(),
        counted,
        value,
        window_start_unix_nanos: 0,
        window_end_unix_nanos: 0,
        observed_unix_nanos: 0,
    }
}

fn published() -> Snapshot {
    let mut snapshot = Snapshot::new();
    snapshot.record_health(record("xmip:///n/receive/a", Health::Fine, 5));
    snapshot.record_health(record("xmip:///n/send/b", Health::Done, 9));
    snapshot.record_count(count("xmip:///n/receive/a", Counted::Streams, 3));
    snapshot.record_count(count("xmip:///n/send/b", Counted::Messages, 2));
    snapshot.record_count(count("xmip:///n/send/b", Counted::Bytes, 40));
    snapshot
}

#[test]
fn a_roll_publishes_its_sums_at_its_scope_and_reads_them_back_there() {
    let publication = Publication::of("playground — n", "xmip:///n", &published());
    let kinds: Vec<Counted> = publication.counts.iter().map(|c| c.counted).collect();
    assert_eq!(kinds, [Counted::Streams, Counted::Messages, Counted::Bytes]);

    let document = publication.document();
    assert_eq!(document.records[0].state, "done");
    assert_eq!(document.counts[0].counted, "streams");
    assert!(document.counts.iter().all(|count| count.scope.is_empty()));

    let read = Publication::from_document(document);
    assert_eq!(read.node, "xmip:///n");
    assert_eq!(read.records, published().health("xmip:///n"));
    let bytes = read
        .counts
        .iter()
        .find(|count| count.counted == Counted::Bytes)
        .expect("bytes");
    assert_eq!((bytes.scope.as_str(), bytes.value), ("xmip:///n", 40));
    assert_eq!(bytes.observed_unix_nanos, 9, "dated by the newest record");
}

#[test]
fn a_nodes_own_publication_keeps_each_count_where_it_was_recorded() {
    let written = published();
    let publication = Publication::whole("n", "xmip:///n", &written);
    assert_eq!(publication.counts.len(), 3);
    let document = publication.document();
    assert_eq!(document.counts[0].scope, "xmip:///n/receive/a");
    let snapshot = Publication::from_document(document).snapshot();

    assert_eq!(snapshot.health("xmip:///n"), written.health("xmip:///n"));
    assert_eq!(
        snapshot
            .measure("xmip:///n/send", Counted::Messages)
            .map(|count| count.value),
        Some(2)
    );
    assert!(
        snapshot
            .measure("xmip:///n/send", Counted::Streams)
            .is_none()
    );
}

#[test]
fn what_a_reader_does_not_know_shows_or_is_skipped() {
    let document = PublicationDocument {
        node: "xmip:///n".to_string(),
        records: vec![RecordDocument {
            scope: "xmip:///n/a".to_string(),
            state: "sulking".to_string(),
            ..RecordDocument::default()
        }],
        counts: vec![
            CountDocument {
                counted: "throughput".to_string(),
                value: 9,
                scope: String::new(),
            },
            CountDocument {
                counted: "failed".to_string(),
                value: 1,
                scope: String::new(),
            },
        ],
        ..PublicationDocument::default()
    };
    let read = Publication::from_document(document);
    assert_eq!(read.records[0].health, Health::Stressed);
    assert_eq!(read.counts.len(), 1);
    assert_eq!(read.counts[0].counted, Counted::Failed);
    assert_eq!(read.counts[0].scope, "xmip:///n");

    let empty = Publication::from_document(PublicationDocument::default());
    assert_eq!(empty.node, "");
    assert!(empty.records.is_empty() && empty.counts.is_empty());
}

#[test]
fn the_run_rides_along() {
    let run = Run {
        cluster: "C1".to_string(),
        nodes: vec!["R1".to_string()],
        capabilities: vec!["R1=receive".to_string()],
        ..Run::default()
    };
    let publication = Publication::of("roll", "xmip:///C1", &Snapshot::new()).with_run(Some(run.clone()));
    assert!(publication.records.is_empty() && publication.counts.is_empty());
    let read = Publication::from_document(publication.document());
    assert_eq!(read.run, Some(run));
    assert_eq!(read.source, "roll");
}

#[test]
fn a_record_is_written_by_its_mood_word_and_read_back_from_it() {
    let mut snapshot = Snapshot::new();
    for (n, health) in Health::ALL.into_iter().enumerate() {
        snapshot.record_health(record(&format!("xmip:///n/{n}"), health, 1));
    }
    let publication = Publication::whole("n", "xmip:///n", &snapshot);
    let document = publication.document();
    assert_eq!(document.records[0].state, "holding", "worst first");
    assert_eq!(document.records[6].state, "fine");
    assert_eq!(Publication::from_document(document).records, publication.records);
}

#[test]
fn counts_are_dated_by_the_newest_record_even_before_the_epoch() {
    let document = PublicationDocument {
        node: "xmip:///n".to_string(),
        records: vec![
            RecordDocument { observed_unix_nanos: -7, ..RecordDocument::default() },
            RecordDocument { observed_unix_nanos: -3, ..RecordDocument::default() },
        ],
        counts: vec![CountDocument {
            counted: "bytes".to_string(),
            value: 1,
            scope: "xmip:///n/x".to_string(),
        }],
        ..PublicationDocument::default()
    };
    let read = Publication::from_document(document);
    assert_eq!(read.counts[0].observed_unix_nanos, -3);
    assert_eq!(read.counts[0].window_start_unix_nanos, -3);
    assert_eq!(read.counts[0].scope, "xmip:///n/x");
}
