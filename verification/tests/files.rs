use xmip_core_observe::activity::{Activity, Item, ItemKind};
use xmip_core_observe::counted::Counted;
use xmip_core_observe::curve::{Curve, CurveDocument, PointDocument};
use xmip_core_observe::recent::{ItemDocument, Recent, RecentDocument};
use xmip_core_observe::snapshot::Count;

fn item(kind: ItemKind, scope: &str, id: &str) -> Item {
    Item {
        kind,
        scope: scope.to_string(),
        id: id.to_string(),
        bytes: 12,
        detail: "delivered".to_string(),
        observed_unix_nanos: 5,
    }
}

fn point(scope: &str, counted: Counted, value: u64, at: i64) -> Count {
    Count {
        scope: scope.to_string(),
        counted,
        value,
        window_start_unix_nanos: at,
        window_end_unix_nanos: at,
        observed_unix_nanos: at,
    }
}

fn entry(kind: &str) -> ItemDocument {
    ItemDocument {
        kind: kind.to_string(),
        ..ItemDocument::default()
    }
}

#[test]
fn the_newest_items_beneath_a_node_cross_the_document_whole() {
    let mut activity = Activity::default();
    activity.record(item(ItemKind::Stream, "xmip:///n/receive/tcp", "s1"));
    activity.record(item(ItemKind::Journey, "xmip:///n/process/p", "j1"));
    activity.record(item(ItemKind::Message, "xmip:///m/send/tcp", "m1"));

    let recent = Recent::of("xmip:///n", &activity);
    assert_eq!(recent.items.len(), 2, "only what is beneath the node");
    assert_eq!(recent.items[0].id, "j1", "newest first");

    let document = recent.document();
    assert_eq!(document.items[0].kind, "journey");
    assert_eq!(document.items[1].kind, "stream");
    assert_eq!(Recent::from_document(document), recent);
}

#[test]
fn a_recent_file_holds_at_most_its_limit() {
    let mut activity = Activity::with_capacity(1000);
    for n in 0..450 {
        activity.record(item(ItemKind::Stream, "xmip:///n/receive/tcp", &format!("s{n}")));
    }
    let recent = Recent::of("xmip:///n", &activity);
    assert_eq!(recent.items.len(), Recent::LIMIT);
    assert_eq!(recent.items[0].id, "s449");
    assert_eq!(recent.items[Recent::LIMIT - 1].id, "s50");
}

#[test]
fn recent_an_unknown_kind_is_skipped() {
    let document = RecentDocument {
        node: String::new(),
        items: vec![entry("parcel"), entry("stream")],
    };
    let read = Recent::from_document(document);
    assert_eq!(read.items.len(), 1);
    assert_eq!(read.items[0].kind, ItemKind::Stream);
}

#[test]
fn a_curve_crosses_its_document_whole() {
    let curve = Curve {
        node: "xmip:///n".to_string(),
        points: vec![
            point("xmip:///n", Counted::Bytes, 3, 10),
            point("xmip:///n", Counted::Bytes, 5, 20),
            point("xmip:///n", Counted::Streams, 7, 20),
        ],
    };
    let document = curve.document();
    assert_eq!(document.points[0].counted, "bytes");
    assert_eq!(document.points[2].counted, "streams");
    assert_eq!(document.points[1].value, 5);
    assert_eq!(Curve::from_document(document), curve);
}

#[test]
fn curve_an_unknown_kind_is_skipped() {
    let document = CurveDocument {
        node: "xmip:///n".to_string(),
        points: vec![
            PointDocument {
                counted: "throughput".to_string(),
                observed_unix_nanos: 0,
                value: 1,
            },
            PointDocument {
                counted: "messages".to_string(),
                observed_unix_nanos: 4,
                value: 7,
            },
        ],
    };
    let read = Curve::from_document(document);

    assert_eq!(read.points, [point("xmip:///n", Counted::Messages, 7, 4)]);
    assert_eq!(Curve::from_document(CurveDocument::default()).points.len(), 0);
}

#[test]
fn a_curve_carries_the_kinds_an_operator_watches() {
    assert_eq!(Curve::KINDS, [Counted::Streams, Counted::Messages, Counted::Bytes]);
}
