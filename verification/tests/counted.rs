use xmip_core_observe::counted::Counted;
use xmip_core_observe::stage::Stage;

#[test]
fn every_kind_has_one_word_and_reads_back_from_it() {
    assert_eq!(
        Counted::ALL.map(Counted::word),
        [
            "streams", "messages", "journeys", "bytes", "retrying", "failed"
        ]
    );
    for counted in Counted::ALL {
        assert_eq!(Counted::named(counted.word()), Some(counted));
    }
    assert_eq!(Counted::named("Streams"), None);
    assert_eq!(Counted::named("throughput"), None);
}

#[test]
fn each_stage_counts_its_own_kind() {
    assert_eq!(
        Stage::ALL.map(Counted::at),
        [Counted::Streams, Counted::Journeys, Counted::Messages]
    );
}

#[test]
fn a_stage_is_named_by_its_word_exactly() {
    assert_eq!(Stage::named("receive"), Some(Stage::Receive));
    assert_eq!(Stage::named("process"), Some(Stage::Process));
    assert_eq!(Stage::named("send"), Some(Stage::Send));
    assert_eq!(Stage::named("Send"), None);
    assert_eq!(Stage::named(""), None);
    assert_eq!(Stage::named("sends"), None);
}
