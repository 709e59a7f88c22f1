use xmip_core_observe::scope::Scope;
use xmip_core_observe::stage::Stage;

fn beneath(candidate: &str, scope: &str) -> bool {
    Scope::new(scope).contains(Scope::new(candidate))
}

fn parts(scope: &str) -> Vec<&str> {
    Scope::new(scope).segments()
}

#[test]
fn a_scope_is_beneath_itself_and_its_ancestors() {
    assert!(beneath("xmip:///n/receive/a", "xmip:///n/receive/a"));
    assert!(beneath("xmip:///n/receive/a", "xmip:///n/receive"));
    assert!(beneath("xmip:///n/receive/a", "xmip:///n"));
    assert!(beneath("xmip:///n/receive/a", "xmip:///"));
    assert!(!beneath("xmip:///n", "xmip:///n/receive"), "never above");
}

#[test]
fn segments_are_the_unit_not_characters() {
    assert!(!beneath("xmip:///ab", "xmip:///a"));
    assert!(!beneath("xmip:///nx", "xmip:///n"));
    assert!(!beneath("xmip:///n/receive-b", "xmip:///n/receive"));
    assert!(!beneath("xmip:///n", "xmip:///n/receive"));
}

#[test]
fn a_slash_at_either_end_is_ignored() {
    assert!(beneath("xmip:///n/receive/a", "xmip:///n/receive/"));
    assert!(beneath("xmip:///n/receive", "xmip:///n/receive/"));
    assert!(beneath("xmip:///n/receive/", "xmip:///n/receive"));
    assert!(beneath("xmip:///n/receive/a", "/n/receive/"));
    assert_eq!(Scope::new("/n/receive/").path(), "n/receive");
}

#[test]
fn the_root_has_four_spellings_and_contains_everything() {
    for root in ["", "/", "xmip://", "xmip:///"] {
        assert!(Scope::new(root).is_root(), "{root:?} is the root");
        assert_eq!(Scope::new(root).path(), "");
        assert!(beneath("xmip:///n/receive/a", root));
    }
    assert!(beneath("", ""), "the root contains the root");
    assert!(
        !beneath("", "xmip:///n"),
        "a node does not contain the root"
    );
}

#[test]
fn the_authority_is_not_part_of_the_tree() {
    assert!(beneath("xmip://edge-01/n/receive/a", "xmip:///n"));
    assert!(beneath("xmip:///n/receive/a", "xmip://ops@edge-01:7400/n"));
    assert_eq!(Scope::new("xmip://ops@edge-01:7400/n").path(), "n");
    assert_eq!(Scope::new("xmip://edge-01/n"), Scope::new("xmip:///n/"));
    assert!(Scope::new("xmip://edge-01").is_root());
}

#[test]
fn text_without_the_scheme_is_a_path() {
    assert!(beneath("xmip:///n/receive/a", "n/receive"));
    assert!(beneath("n/receive/a", "xmip:///n"));
    assert_eq!(Scope::new("n/receive").path(), "n/receive");
}

#[test]
fn the_scheme_is_lower_case_and_segments_compare_case_sensitively() {
    assert_eq!(Scope::new("XMIP:///C1").path(), "XMIP:///C1");
    assert!(!beneath("XMIP:///C1", "xmip:///C1"));
    assert!(beneath("XMIP:///C1/node", "XMIP:///C1"));
    assert!(!beneath("xmip:///N/receive", "xmip:///n"));
}

#[test]
fn a_query_and_a_fragment_are_part_of_the_path_today() {
    assert!(beneath(
        "xmip:///n/receive/a?party=partner-x",
        "xmip:///n/receive"
    ));
    assert_eq!(
        Scope::new("xmip:///n/receive?party=partner-x").path(),
        "n/receive?party=partner-x"
    );
    assert!(!beneath("xmip:///n/receive/a", "xmip:///n/receive?party=x"));
    assert!(!beneath("xmip:///n", "xmip:///n#top"));
}

#[test]
fn the_node_follows_the_marker_beneath_the_cluster_and_the_cluster_is_none() {
    let node = |scope: &'static str| Scope::new(scope).node();
    assert_eq!(node("xmip:///C1/node/alpha/receive/tcp"), Some("alpha"));
    assert_eq!(node("xmip://lab/C1/node/alpha"), Some("alpha"));
    assert_eq!(node("xmip:///C1/node/node/send"), Some("node"));
    for none in [
        "xmip:///",
        "xmip:///C1",
        "xmip:///C1/node",
        "xmip:///C1/round-trip/send/tcp",
        "xmip:///C1/shared/node/x",
        "xmip:///edge-01/receive/orders",
    ] {
        assert_eq!(node(none), None, "{none}");
    }
}

#[test]
fn the_stage_is_beneath_the_node_or_the_cluster_and_never_a_name() {
    let stage = |scope: &str| Scope::new(scope).stage();
    assert_eq!(
        stage("xmip:///C1/node/alpha/receive/tcp"),
        Some(Stage::Receive)
    );
    assert_eq!(
        stage("xmip:///C1/round-trip/send/tcp/json"),
        Some(Stage::Send)
    );
    assert_eq!(
        stage("xmip:///C1/node/send/process/x"),
        Some(Stage::Process)
    );
    assert_eq!(stage("xmip:///C1/node/send"), None);
    assert_eq!(stage("xmip:///receive/filing/file"), None);
    assert_eq!(stage("xmip:///C1/node/alpha/Receive"), None, "exact");
    assert_eq!(stage("xmip:///"), None);
}

#[test]
fn the_segments_are_the_path_split_top_first() {
    assert_eq!(
        parts("xmip:///edge-01/receive/orders"),
        ["edge-01", "receive", "orders"]
    );
    assert_eq!(
        parts("xmip://lab:9000/edge-01/receive/"),
        ["edge-01", "receive"]
    );
    assert_eq!(parts("edge-01/receive"), ["edge-01", "receive"]);
    assert_eq!(parts("xmip:///a//b"), ["a", "b"]);
    assert!(parts("xmip:///").is_empty());
    assert!(parts("").is_empty());
    assert!(parts("xmip://edge-01").is_empty());
}

#[test]
fn containment_goes_through_every_ancestor() {
    let (node, stage, location) = ("xmip:///n", "xmip:///n/receive", "xmip:///n/receive/a");
    assert!(beneath(stage, node) && beneath(location, stage) && beneath(location, node));
    assert!(!beneath(node, stage) && !beneath(stage, location));
    assert_eq!(parts(node), parts(location)[..1]);
    assert_eq!(parts(stage), parts(location)[..2]);
}

#[test]
fn a_doubled_slash_is_a_segment_gap_that_containment_sees() {
    assert_eq!(parts("xmip:///a//b"), parts("xmip:///a/b"));
    assert!(!beneath("xmip:///a/b", "xmip:///a//b"));
    assert!(beneath("xmip:///a//b", "xmip:///a"));
}

#[test]
fn non_ascii_text_is_cut_only_at_slashes() {
    let scope = Scope::new("xmip://héte/zürich/ça/ü");
    assert_eq!(scope.path(), "zürich/ça/ü");
    assert_eq!(scope.segments(), ["zürich", "ça", "ü"]);
    assert!(beneath("zürich/ça/ü/x", "xmip:///zürich/ça"));
    assert!(!beneath("zürich/çat", "zürich/ça"));
}

#[test]
fn a_segment_prefix_without_empty_segments_is_containment() {
    assert!(parts("xmip:///n/receive").iter().eq(parts("xmip:///n/receive/a")[..2].iter()));
    assert!(beneath("xmip:///n/receive/a", "xmip:///n/receive"));
    assert_ne!(parts("xmip:///n/receive-b")[..2], parts("xmip:///n/receive")[..]);
    assert!(!beneath("xmip:///n/receive-b", "xmip:///n/receive"));
}
