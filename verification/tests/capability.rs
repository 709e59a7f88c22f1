use xmip_core_observe::capability::{declarer, scope};

#[test]
fn a_node_publishes_its_capability_beneath_itself() {
    let at = scope("xmip:///C1/node/alpha");
    assert_eq!(at, "xmip:///C1/node/alpha/capability");
    assert_eq!(scope("xmip:///C1/node/alpha//"), "xmip:///C1/node/alpha/capability");
    assert_eq!(declarer(&at), Some("alpha"));
}

#[test]
fn any_other_record_is_no_declaration() {
    assert!(declarer("xmip:///C1/node/alpha/receive/tcp").is_none());
    assert!(declarer("xmip:///capability").is_none());
    assert!(declarer("").is_none());
}

#[test]
fn a_capability_record_names_the_node_above_it() {
    assert_eq!(declarer("xmip:///n/edge-01/capability"), Some("edge-01"));
    assert_eq!(declarer("xmip://lab/C1/node/beta/capability/"), Some("beta"));
    assert_eq!(declarer("xmip:///C1/node/beta/Capability"), None, "exact");
}

#[test]
fn the_record_a_node_publishes_names_the_node_by_its_last_segment() {
    for (node, name) in [
        ("xmip://lab/C1/node/beta/", "beta"),
        ("n/edge-01", "edge-01"),
        ("xmip:///C1//x", "x"),
    ] {
        assert_eq!(declarer(&scope(node)), Some(name), "{node}");
    }
}
