use xmip_core_observe::topology::{NodeKind, Origin, Pattern, label_or_id, rises_since};

#[test]
fn every_word_reads_back_and_an_unknown_one_reads_as_the_fallback() {
    for kind in NodeKind::ALL.iter() {
        assert_eq!(NodeKind::named(kind.word()), Some(*kind));
    }
    for origin in Origin::ALL.iter() {
        assert_eq!(Origin::named(origin.word()), Some(*origin));
    }
    for pattern in Pattern::ALL.iter() {
        assert_eq!(Pattern::named(pattern.word()), Some(*pattern));
    }
    assert_eq!(NodeKind::VirtualMachine.word(), "virtual-machine");
    assert_eq!(NodeKind::VirtualMachine.name(), "virtual machine");
    assert_eq!(Origin::Both.name(), "configured and observed");
    assert_eq!(Pattern::PublishConsume.name(), "Publish → consume");
    for pattern in Pattern::ALL.iter() {
        assert_ne!(
            pattern.name(),
            pattern.word(),
            "a pattern is named, not spelled"
        );
    }
    assert_eq!(NodeKind::named("mainframe"), None);
    assert_eq!(NodeKind::default(), NodeKind::Computer);
    assert_eq!(Origin::default(), Origin::Both);
    assert_eq!(Pattern::default(), Pattern::SendReceive);
}

#[test]
fn a_word_no_one_is_called_reads_as_the_fallback() {
    assert_eq!(NodeKind::read("mainframe"), NodeKind::Computer);
    assert_eq!(NodeKind::read("endpoint"), NodeKind::Endpoint);
    assert_eq!(Origin::read("guessed"), Origin::Both);
    assert_eq!(Origin::read("observed"), Origin::Observed);
    assert_eq!(Pattern::read("telepathy"), Pattern::SendReceive);
    assert_eq!(Pattern::read("retry"), Pattern::Retry);
    assert_eq!(Pattern::read("Retry"), Pattern::SendReceive, "a word is exact");
}

#[test]
fn the_header_numbers_every_variant_once() {
    assert_eq!(NodeKind::ALL.len(), 15);
    assert_eq!(Origin::ALL.len(), 3);
    assert_eq!(Pattern::ALL.len(), 7);
    assert_eq!(NodeKind::ALL[0], NodeKind::Computer);
    assert_eq!(NodeKind::ALL[14], NodeKind::Endpoint);
    assert_eq!(Pattern::FireAndForget.word(), "fire-and-forget");
    assert_eq!(Pattern::SendReceive.name(), "Send → receive");
    assert_eq!(Origin::Configured.name(), "configured");
}

fn volumes(links: &[(&str, u64)]) -> Vec<(String, u64)> {
    links.iter().map(|(id, volume)| (id.to_string(), *volume)).collect()
}

#[test]
fn a_links_rise_is_counted_over_the_nanoseconds_between_two_readings() {
    let before = volumes(&[("a", 10), ("fell", 50), ("idle", 4)]);
    let now = volumes(&[("a", 30), ("fell", 5), ("idle", 4), ("new", 7)]);
    let (nanos, rises) = rises_since(3_000_000_000, 1_000_000_000, &now, &before).expect("an interval");
    assert_eq!(nanos, 2_000_000_000);
    assert_eq!(rises, [Some(20), None, Some(0), None]);
    let rate = rises[0].unwrap() as f64 / (nanos as f64 / 1e9);
    assert!((rate - 10.0).abs() < f64::EPSILON);

    assert_eq!(rises_since(3_000_000_000, 3_000_000_000, &now, &before), None, "no interval is no rate");
    assert_eq!(rises_since(1, 2, &now, &before), None);
}

#[test]
fn the_first_earlier_link_of_an_id_is_the_one_risen_from() {
    let before = volumes(&[("a", 3), ("a", 1)]);
    let (_, rises) = rises_since(2, 1, &volumes(&[("a", 2)]), &before).expect("an interval");
    assert_eq!(rises, [None], "the first reading of a, at 3, fell");
}

#[test]
fn a_drawn_node_without_a_label_is_labelled_by_its_id() {
    assert_eq!(label_or_id("", "cluster"), "cluster");
    assert_eq!(label_or_id("alpha", "node/alpha"), "alpha");
}
