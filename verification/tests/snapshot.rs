use xmip_core_observe::counted::Counted;
use xmip_core_observe::health::Health;
use xmip_core_observe::snapshot::{Count, HealthRecord, PAUSED_SEVERITY, Snapshot};

fn health(scope: &str, health: Health, severity: u8) -> HealthRecord {
    HealthRecord {
        scope: scope.to_string(),
        health,
        severity,
        evidence: String::new(),
        observed_unix_nanos: 1_000,
    }
}

fn count(scope: &str, value: u64) -> Count {
    Count {
        scope: scope.to_string(),
        counted: Counted::Streams,
        value,
        window_start_unix_nanos: 0,
        window_end_unix_nanos: 60,
        observed_unix_nanos: 60,
    }
}

#[test]
fn a_node_is_as_healthy_as_its_worst_part() {
    let mut snapshot = Snapshot::new();
    snapshot.record_health(health("xmip:///edge-01/receive/a", Health::Fine, 0));
    snapshot.record_health(health("xmip:///edge-01/receive/b", Health::Done, 90));

    assert_eq!(snapshot.worst("xmip:///edge-01"), Some(Health::Done));
}

#[test]
fn within_a_state_the_more_severe_comes_first() {
    let mut snapshot = Snapshot::new();
    snapshot.record_health(health("xmip:///n/receive/mild", Health::Stressed, 40));
    snapshot.record_health(health("xmip:///n/receive/severe", Health::Stressed, 85));

    let ordered = snapshot.health("xmip:///n");
    assert_eq!(ordered[0].scope, "xmip:///n/receive/severe");
    assert_eq!(ordered[0].severity, 85);
}

#[test]
fn a_scope_with_nothing_beneath_it_has_no_health() {
    assert_eq!(Snapshot::new().worst("xmip:///edge-01"), None);
}

#[test]
fn pausing_turns_a_scope_yellow_and_stops_its_counts() {
    let mut snapshot = Snapshot::new();
    snapshot.record_health(health("xmip:///edge-01/receive/orders", Health::Fine, 0));
    snapshot.record_count(count("xmip:///edge-01/receive/orders", 40));

    let paused = snapshot.pause("xmip:///edge-01/receive/orders", "ilian", 2_000);

    assert_eq!(paused, 1);
    let record = &snapshot.health("xmip:///edge-01/receive/orders")[0];
    assert_eq!(record.health, Health::Paused);
    assert_eq!(record.severity, PAUSED_SEVERITY);
    assert!(record.evidence.contains("ilian"));
    assert!(
        snapshot
            .measure("xmip:///edge-01/receive/orders", Counted::Streams)
            .is_none()
    );
    snapshot.record_count(count("xmip:///edge-01/receive/orders", 99));
    assert!(
        snapshot
            .measure("xmip:///edge-01/receive/orders", Counted::Streams)
            .is_none()
    );
}

#[test]
fn resume_puts_back_exactly_what_was_there() {
    let mut snapshot = Snapshot::new();
    snapshot.record_health(health("xmip:///n/receive/a", Health::Done, 70));

    snapshot.pause("xmip:///n/receive/a", "ilian", 2_000);
    assert_eq!(snapshot.worst("xmip:///n/receive/a"), Some(Health::Paused));

    let resumed = snapshot.resume("xmip:///n/receive/a");
    assert_eq!(resumed, 1);
    let record = &snapshot.health("xmip:///n/receive/a")[0];
    assert_eq!(record.health, Health::Done);
    assert_eq!(record.severity, 70);
}

#[test]
fn pausing_a_stage_pauses_every_location_in_it() {
    let mut snapshot = Snapshot::new();
    snapshot.record_health(health("xmip:///n/receive/a", Health::Fine, 0));
    snapshot.record_health(health("xmip:///n/receive/b", Health::Fine, 0));
    snapshot.record_health(health("xmip:///n/send/c", Health::Fine, 0));

    let paused = snapshot.pause("xmip:///n/receive", "ilian", 2_000);

    assert_eq!(paused, 2, "both receive locations, not the send one");
    assert!(snapshot.is_paused("xmip:///n/receive/a"));
    assert!(!snapshot.is_paused("xmip:///n/send/c"));
}

#[test]
fn a_paused_scope_stays_paused_when_the_node_republishes_it() {
    let mut snapshot = Snapshot::new();
    snapshot.record_health(health("xmip:///n/receive/a", Health::Fine, 0));
    snapshot.pause("xmip:///n/receive/a", "ilian", 2_000);

    snapshot.record_health(health("xmip:///n/receive/a", Health::Fine, 0));

    assert_eq!(snapshot.worst("xmip:///n/receive/a"), Some(Health::Paused));
}

fn counted(scope: &str, kind: Counted, value: u64, start: i64, end: i64, observed: i64) -> Count {
    Count {
        scope: scope.to_string(),
        counted: kind,
        value,
        window_start_unix_nanos: start,
        window_end_unix_nanos: end,
        observed_unix_nanos: observed,
    }
}

#[test]
fn a_count_up_the_tree_is_the_sum_beneath_over_the_union_of_windows() {
    let mut snapshot = Snapshot::new();
    snapshot.record_count(counted("xmip:///n/receive/a", Counted::Streams, 3, 10, 50, 55));
    snapshot.record_count(counted("xmip:///n/receive/b", Counted::Streams, 4, 5, 40, 70));
    snapshot.record_count(counted("xmip:///n/send/c", Counted::Streams, 5, 20, 90, 91));
    snapshot.record_count(counted("xmip:///n/send/c", Counted::Bytes, 700, 0, 99, 1));
    snapshot.record_count(counted("xmip:///nx/receive", Counted::Streams, 100, 0, 0, 0));

    let whole = snapshot.measure("xmip:///n", Counted::Streams).expect("counted");
    assert_eq!(whole.scope, "xmip:///n");
    assert_eq!(whole.counted, Counted::Streams);
    assert_eq!(whole.value, 12);
    assert_eq!(whole.window_start_unix_nanos, 5);
    assert_eq!(whole.window_end_unix_nanos, 90);
    assert_eq!(whole.observed_unix_nanos, 55, "the stalest part");

    let part = snapshot.measure("xmip:///n/receive", Counted::Streams).expect("counted");
    assert_eq!(part.value, 7);
    assert!(part.value <= whole.value);
    assert!(snapshot.measure("xmip:///n", Counted::Journeys).is_none());
    assert_eq!(snapshot.measure("", Counted::Streams).map(|c| c.value), Some(112));
}

#[test]
fn a_count_replaces_what_was_there_for_its_scope_and_kind() {
    let mut snapshot = Snapshot::new();
    snapshot.record_count(counted("xmip:///n/a", Counted::Messages, 1, 0, 1, 1));
    snapshot.record_count(counted("xmip:///n/a", Counted::Bytes, 10, 0, 1, 1));
    snapshot.record_count(counted("xmip:///n/a", Counted::Messages, 6, 0, 2, 2));

    assert_eq!(snapshot.all_counts().len(), 2);
    assert_eq!(snapshot.measure("xmip:///n", Counted::Messages).map(|c| c.value), Some(6));
    assert_eq!(snapshot.measure("xmip:///n", Counted::Bytes).map(|c| c.value), Some(10));
}

#[test]
fn health_records_are_one_per_scope_in_scope_order() {
    let mut snapshot = Snapshot::default();
    snapshot.record_health(health("xmip:///n/b", Health::Fine, 0));
    snapshot.record_health(health("xmip:///n/a", Health::Done, 80));
    snapshot.record_health(health("xmip:///n/b", Health::Stressed, 20));

    let scopes: Vec<&str> = snapshot.health_records().iter().map(|r| r.scope.as_str()).collect();
    assert_eq!(scopes, ["xmip:///n/a", "xmip:///n/b"]);
    assert_eq!(snapshot.health_records()[1].health, Health::Stressed);
}

#[test]
fn health_is_worst_first_then_most_severe_then_by_scope() {
    let mut snapshot = Snapshot::new();
    snapshot.record_health(health("xmip:///n/g", Health::Fine, 0));
    snapshot.record_health(health("xmip:///n/y2", Health::Stressed, 60));
    snapshot.record_health(health("xmip:///n/r", Health::Done, 10));
    snapshot.record_health(health("xmip:///n/y1", Health::Stressed, 60));
    snapshot.record_health(health("xmip:///m/r", Health::Done, 100));

    let scopes: Vec<String> = snapshot.health("xmip:///n").into_iter().map(|r| r.scope).collect();
    assert_eq!(scopes, ["xmip:///n/r", "xmip:///n/y1", "xmip:///n/y2", "xmip:///n/g"]);
    assert_eq!(snapshot.worst("xmip:///n/y1"), Some(Health::Stressed));
    assert_eq!(snapshot.worst(""), Some(Health::Done), "the root holds everything");
}

#[test]
fn resume_restores_every_paused_location_and_leaves_counts_stopped() {
    let mut snapshot = Snapshot::new();
    snapshot.record_health(health("xmip:///n/receive/a", Health::Done, 70));
    snapshot.record_health(health("xmip:///n/receive/b", Health::Fine, 0));
    snapshot.record_health(health("xmip:///n/send/c", Health::Stressed, 50));
    snapshot.record_count(count("xmip:///n/receive/a", 4));
    snapshot.record_count(count("xmip:///n/send/c", 9));
    let before = snapshot.health("");

    assert_eq!(snapshot.pause("xmip:///n/receive", "ilian", 2_000), 2);
    assert!(snapshot.is_paused("xmip:///n/receive/a/deeper"), "an ancestor is paused");
    assert_eq!(snapshot.measure("xmip:///n", Counted::Streams).map(|c| c.value), Some(9));
    assert_eq!(snapshot.resume("xmip:///n/receive"), 2);

    assert_eq!(snapshot.health(""), before);
    assert!(!snapshot.is_paused("xmip:///n/receive/a"));
    assert_eq!(snapshot.measure("xmip:///n", Counted::Streams).map(|c| c.value), Some(9));
    assert_eq!(snapshot.resume("xmip:///n/receive"), 0, "nothing is paused any more");
}

#[test]
fn a_republished_record_comes_back_on_resume() {
    let mut snapshot = Snapshot::new();
    snapshot.record_health(health("xmip:///n/receive/a", Health::Fine, 0));
    snapshot.pause("xmip:///n/receive/a", "ilian", 2_000);
    snapshot.record_health(health("xmip:///n/receive/a", Health::Done, 95));

    assert_eq!(snapshot.worst("xmip:///n/receive/a"), Some(Health::Paused));
    snapshot.resume("xmip:///n");
    let record = &snapshot.health("xmip:///n/receive/a")[0];
    assert_eq!((record.health, record.severity), (Health::Done, 95));
}

#[test]
fn pausing_nothing_pauses_nothing() {
    let mut snapshot = Snapshot::new();
    snapshot.record_health(health("xmip:///n/receive/a", Health::Fine, 0));
    assert_eq!(snapshot.pause("xmip:///m", "ilian", 2_000), 0);
    assert!(!snapshot.is_paused("xmip:///n/receive/a"));
    assert_eq!(snapshot.resume("xmip:///m"), 0);
}

#[test]
fn the_pause_evidence_names_the_operator() {
    let mut snapshot = Snapshot::new();
    snapshot.record_health(health("xmip:///n/receive/a", Health::Done, 70));
    snapshot.pause("xmip:///n/", "ops@edge", 42);
    let record = &snapshot.health("xmip:///n")[0];
    assert_eq!(record.evidence, "paused by ops@edge");
    assert_eq!(record.observed_unix_nanos, 42);
    assert_eq!(record.scope, "xmip:///n/receive/a");
    assert_eq!(Health::Paused.rank(), 1);
}

#[test]
fn a_second_pause_keeps_what_was_there_before_the_first() {
    let mut snapshot = Snapshot::new();
    let red = HealthRecord {
        scope: "xmip:///n/a".to_string(),
        health: Health::Done,
        severity: 70,
        evidence: String::new(),
        observed_unix_nanos: 1,
    };
    snapshot.record_health(red.clone());
    assert_eq!(snapshot.pause("xmip:///n/a", "x", 2), 1);
    assert_eq!(snapshot.pause("xmip:///n/a", "y", 3), 1);
    assert_eq!(snapshot.worst("xmip:///n/a"), Some(Health::Paused));

    assert_eq!(snapshot.resume("xmip:///n/a"), 1);
    assert_eq!(snapshot.health("xmip:///n/a"), [red]);
    assert!(!snapshot.is_paused("xmip:///n/a"));
}

#[test]
fn pausing_a_stage_over_a_paused_location_keeps_the_location_held() {
    let mut snapshot = Snapshot::new();
    snapshot.record_health(health("xmip:///n/receive/a", Health::Done, 70));
    snapshot.record_health(health("xmip:///n/receive/b", Health::Fine, 0));
    snapshot.pause("xmip:///n/receive/a", "ilian", 2_000);
    assert_eq!(snapshot.pause("xmip:///n/receive", "ilian", 3_000), 2);
    assert_eq!(snapshot.resume("xmip:///n/receive"), 2);

    let record = &snapshot.health("xmip:///n/receive/a")[0];
    assert_eq!((record.health, record.severity), (Health::Done, 70));
    assert_eq!(snapshot.worst("xmip:///n/receive/b"), Some(Health::Fine));
}
