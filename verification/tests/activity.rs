use xmip_core_observe::activity::{Activity, DEFAULT_CAPACITY, Item, ItemKind};

fn item(kind: ItemKind, scope: &str, id: &str, now: i64) -> Item {
    Item {
        kind,
        scope: scope.to_string(),
        id: id.to_string(),
        bytes: 10,
        detail: "delivered".to_string(),
        observed_unix_nanos: now,
    }
}

#[test]
fn recent_returns_items_beneath_a_scope_newest_first() {
    let mut activity = Activity::default();
    activity.record(item(ItemKind::Stream, "xmip:///n/receive/a", "s1", 1));
    activity.record(item(ItemKind::Message, "xmip:///n/send/b", "m1", 2));
    activity.record(item(ItemKind::Stream, "xmip:///n/receive/a", "s2", 3));

    let at_a = activity.recent("xmip:///n/receive/a", None, 10);
    assert_eq!(at_a.len(), 2);
    assert_eq!(at_a[0].id, "s2", "newest first");
    assert_eq!(at_a[1].id, "s1");

    assert_eq!(
        activity.recent("xmip:///n", None, 10).len(),
        3,
        "beneath the node"
    );
}

#[test]
fn recent_filters_by_kind() {
    let mut activity = Activity::default();
    activity.record(item(ItemKind::Stream, "xmip:///n/x", "s1", 1));
    activity.record(item(ItemKind::Message, "xmip:///n/x", "m1", 2));

    let messages = activity.recent("xmip:///n", Some(ItemKind::Message), 10);
    assert_eq!(messages.len(), 1);
    assert_eq!(messages[0].kind, ItemKind::Message);
}

#[test]
fn recent_honours_the_limit() {
    let mut activity = Activity::default();
    for tick in 0..5 {
        activity.record(item(ItemKind::Stream, "xmip:///n/x", "s", tick));
    }

    assert_eq!(activity.recent("xmip:///n", None, 2).len(), 2);
}

#[test]
fn the_ring_is_bounded_and_drops_the_oldest() {
    let mut activity = Activity::with_capacity(2);
    for tick in 0..5 {
        activity.record(item(
            ItemKind::Stream,
            "xmip:///n/x",
            &format!("s{tick}"),
            tick,
        ));
    }

    assert_eq!(activity.len(), 2);
    let held = activity.recent("xmip:///n", None, 10);
    assert_eq!(held[0].id, "s4");
    assert_eq!(held[1].id, "s3");
}

#[test]
fn an_unrelated_scope_has_nothing() {
    let mut activity = Activity::default();
    activity.record(item(ItemKind::Stream, "xmip:///n/x", "s1", 1));

    assert!(activity.recent("xmip:///other", None, 10).is_empty());
}

#[test]
fn a_capacity_of_zero_keeps_one_item() {
    let mut activity = Activity::with_capacity(0);
    assert!(activity.is_empty());
    activity.record(item(ItemKind::Journey, "xmip:///n/p", "j1", 1));
    activity.record(item(ItemKind::Journey, "xmip:///n/p", "j2", 2));
    assert_eq!(activity.len(), 1);
    assert_eq!(activity.recent("", None, 10)[0].id, "j2");
}

#[test]
fn the_default_log_keeps_its_default_capacity() {
    let mut activity = Activity::default();
    for tick in 0..(DEFAULT_CAPACITY as i64 + 3) {
        activity.record(item(ItemKind::Stream, "xmip:///n/x", "s", tick));
    }
    assert_eq!(activity.len(), DEFAULT_CAPACITY);
    assert_eq!(activity.recent("xmip:///n", None, 1)[0].observed_unix_nanos, DEFAULT_CAPACITY as i64 + 2);
}

#[test]
fn the_log_answers_by_the_scope_rule() {
    let mut activity = Activity::default();
    activity.record(item(ItemKind::Stream, "xmip://edge-01/n/receive/a", "s1", 1));
    activity.record(item(ItemKind::Stream, "xmip:///nx/receive/a", "s2", 2));
    activity.record(item(ItemKind::Message, "n/send/b", "m1", 3));

    let beneath_n = activity.recent("xmip:///n/", None, 10);
    assert_eq!(beneath_n.len(), 2, "the authority is not part of the tree");
    assert_eq!(beneath_n[0].id, "m1");
    assert_eq!(beneath_n[1].id, "s1");
    assert_eq!(activity.recent("", None, 10).len(), 3, "the root holds everything");
    assert!(activity.recent("xmip:///n", Some(ItemKind::Journey), 10).is_empty());
    assert!(activity.recent("xmip:///n", None, 0).is_empty());
}

#[test]
fn an_item_kind_is_named_by_its_token_and_read_back_from_it() {
    for kind in [ItemKind::Stream, ItemKind::Message, ItemKind::Journey] {
        assert_eq!(ItemKind::named(kind.name()), Some(kind));
    }
    assert_eq!(ItemKind::Stream.name(), "stream");
    assert_eq!(ItemKind::Message.name(), "message");
    assert_eq!(ItemKind::Journey.name(), "journey");
    assert_eq!(ItemKind::named("parcel"), None);
    assert_eq!(ItemKind::named("Stream"), None);
}
