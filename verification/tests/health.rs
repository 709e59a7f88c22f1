use std::cmp::Ordering;
use xmip_core_observe::health::{Health, Standing};

fn standing(health: Health, severity: u8, scope: &str) -> Standing<'_> {
    Standing {
        health,
        severity,
        scope,
    }
}

#[test]
fn every_mood_has_one_word_and_reads_back_from_it() {
    let words = Health::ALL.map(Health::word);

    assert_eq!(
        words,
        [
            "fine",
            "paused",
            "working",
            "stressed",
            "exhausted",
            "done",
            "holding"
        ]
    );
    for health in Health::ALL {
        assert_eq!(Health::named(health.word()), Some(health));
    }
}

#[test]
fn a_word_is_exact_lower_case_and_anything_else_names_no_mood() {
    assert_eq!(Health::named("Fine"), None);
    assert_eq!(Health::named("DONE"), None);
    assert_eq!(Health::named(" fine"), None);
    assert_eq!(Health::named(""), None);
    assert_eq!(Health::named("unknown"), None);
}

#[test]
fn every_mood_has_the_color_adr_0041_names() {
    assert_eq!(
        Health::ALL.map(Health::color),
        ["green", "slate", "blue", "yellow", "burnt", "red", "orange"]
    );
}

#[test]
fn a_parent_is_fine_or_holding_and_nothing_else() {
    assert_eq!(
        Health::ALL.map(Health::rolled),
        [
            Health::Fine,
            Health::Holding,
            Health::Holding,
            Health::Holding,
            Health::Holding,
            Health::Holding,
            Health::Holding
        ]
    );
}

#[test]
fn all_is_in_worsening_order_with_the_rollup_last() {
    assert!(Health::ALL.windows(2).all(|pair| pair[0] < pair[1]));
    assert_eq!(Health::ALL.last(), Some(&Health::Holding));
}

#[test]
fn the_worse_mood_stands_first_whatever_the_severity() {
    let done = standing(Health::Done, 10, "xmip:///b");
    let stressed = standing(Health::Stressed, 99, "xmip:///a");

    assert_eq!(done.cmp(&stressed), Ordering::Less);
    assert_eq!(stressed.cmp(&done), Ordering::Greater);
}

#[test]
fn within_a_mood_the_more_severe_then_the_first_scope_stands_first() {
    let severe = standing(Health::Done, 90, "xmip:///z");
    let mild = standing(Health::Done, 60, "xmip:///a");
    let first = standing(Health::Done, 60, "xmip:///a");
    let second = standing(Health::Done, 60, "xmip:///b");

    assert_eq!(severe.cmp(&mild), Ordering::Less);
    assert_eq!(first.cmp(&second), Ordering::Less);
    assert_eq!(first.cmp(&first), Ordering::Equal);
}

#[test]
fn many_are_ordered_worst_first_by_position_and_equals_keep_theirs() {
    let records = [
        standing(Health::Fine, 0, "xmip:///a"),
        standing(Health::Done, 60, "xmip:///d"),
        standing(Health::Holding, 0, "xmip:///h"),
        standing(Health::Fine, 0, "xmip:///a"),
        standing(Health::Done, 90, "xmip:///e"),
    ];

    assert_eq!(Standing::worst_first(&records), [2, 4, 1, 0, 3]);
    assert!(Standing::worst_first(&[]).is_empty());
}

#[test]
fn a_sort_puts_the_worst_first() {
    let mut records = [
        standing(Health::Fine, 0, "xmip:///a"),
        standing(Health::Holding, 0, "xmip:///h"),
        standing(Health::Done, 60, "xmip:///d"),
        standing(Health::Done, 90, "xmip:///e"),
        standing(Health::Paused, 30, "xmip:///p"),
    ];
    records.sort_by(|a, b| a.cmp(b));

    assert_eq!(
        records.map(|record| record.scope),
        [
            "xmip:///h",
            "xmip:///e",
            "xmip:///d",
            "xmip:///p",
            "xmip:///a"
        ]
    );
}

#[test]
fn the_rank_is_the_declaration_order() {
    for (place, health) in Health::ALL.into_iter().enumerate() {
        assert_eq!(usize::from(health.rank()), place);
    }
}

#[test]
fn the_scope_breaks_ties_by_bytes_not_by_length() {
    let short = standing(Health::Working, 5, "xmip:///b");
    let long = standing(Health::Working, 5, "xmip:///ab");
    let prefix = standing(Health::Working, 5, "xmip:///a");

    assert_eq!(long.cmp(&short), Ordering::Less);
    assert_eq!(prefix.cmp(&long), Ordering::Less, "a proper prefix comes first");
    assert_eq!(
        Standing::worst_first(&[short, long, prefix]),
        [2, 1, 0]
    );
}

#[test]
fn a_mood_no_one_is_called_reads_as_stressed() {
    assert_eq!(Health::unknown(), Health::Stressed);
    assert_eq!(Health::read("sulking"), Health::Stressed);
    assert_eq!(Health::read("Done"), Health::Stressed);
    assert_eq!(Health::read("done"), Health::Done);
    for health in Health::ALL {
        assert_eq!(Health::read(health.word()), health);
    }
}

#[test]
fn the_worse_standing_is_the_lesser() {
    let done = standing(Health::Done, 10, "xmip:///b");
    let stressed = standing(Health::Stressed, 99, "xmip:///a");

    assert!(done < stressed);
    assert_eq!(done.partial_cmp(&stressed), Some(Ordering::Less));
    assert_eq!(done.partial_cmp(&done), Some(Ordering::Equal));
    assert!(stressed >= done);
}
