//! The mood of a scope, what it is called, what color it is painted, and
//! which of two records is the worse.
//!
//! Every word, color name, rollup and order a surface shows for a mood is
//! decided here and nowhere else.

use vstd::prelude::*;
use vstd::string::*;
use std::cmp::Ordering;
use vstd::std_specs::cmp::PartialOrdSpecImpl;
use crate::order::{Key, KeyView, compare_keys, is_worst_first, key_order, key_view, keys_view, worst_first_positions};
use crate::text::same_text;

verus! {

/// The mood of a scope. A mood, not a colour: it tells an operator whether
/// results are flowing and, when they are not, what to do.
///
/// The leaf moods, in worsening order: `Fine` (results flowing), `Paused` (a
/// deliberate hold), `Working` (handling the load), `Stressed` (strained —
/// change the load), `Exhausted` (spent — replace the hardware), `Done`
/// (blocked or failed). `Holding` is the rollup mood a parent shows when
/// anything beneath it is not `Fine`.
///
/// The declaration order is the ranking: a later mood is the worse one.
#[derive(Clone, Copy, Debug, PartialEq, Eq, Structural, PartialOrd, Ord, Hash)]
pub enum Health {
    Fine,
    /// A deliberate hold — an operator is working on it.
    Paused,
    Working,
    Stressed,
    Exhausted,
    Done,
    /// Rollup only — a parent with something not-`Fine` beneath it.
    Holding,
}

/// How bad a mood is: its place in the declaration order, best first.
pub open spec fn health_rank(health: Health) -> int {
    match health {
        Health::Fine => 0,
        Health::Paused => 1,
        Health::Working => 2,
        Health::Stressed => 3,
        Health::Exhausted => 4,
        Health::Done => 5,
        Health::Holding => 6,
    }
}

/// The word a mood is called, lower case.
pub open spec fn health_word(health: Health) -> Seq<char> {
    match health {
        Health::Fine => "fine"@,
        Health::Paused => "paused"@,
        Health::Working => "working"@,
        Health::Stressed => "stressed"@,
        Health::Exhausted => "exhausted"@,
        Health::Done => "done"@,
        Health::Holding => "holding"@,
    }
}

/// The mood a word names, exactly, or `None`.
pub open spec fn health_named(word: Seq<char>) -> Option<Health> {
    if word == health_word(Health::Fine) {
        Some(Health::Fine)
    } else if word == health_word(Health::Paused) {
        Some(Health::Paused)
    } else if word == health_word(Health::Working) {
        Some(Health::Working)
    } else if word == health_word(Health::Stressed) {
        Some(Health::Stressed)
    } else if word == health_word(Health::Exhausted) {
        Some(Health::Exhausted)
    } else if word == health_word(Health::Done) {
        Some(Health::Done)
    } else if word == health_word(Health::Holding) {
        Some(Health::Holding)
    } else {
        None
    }
}

/// The name of the color a mood is painted in.
pub open spec fn health_color(health: Health) -> Seq<char> {
    match health {
        Health::Fine => "green"@,
        Health::Paused => "slate"@,
        Health::Working => "blue"@,
        Health::Stressed => "yellow"@,
        Health::Exhausted => "burnt"@,
        Health::Done => "red"@,
        Health::Holding => "orange"@,
    }
}

/// What a parent shows when this is the worst mood beneath it.
pub open spec fn health_rolled(health: Health) -> Health {
    if health == Health::Fine {
        Health::Fine
    } else {
        Health::Holding
    }
}

impl Health {
    /// Every mood, best first: the leaf moods in worsening order, then the
    /// rollup.
    pub const ALL: [Health; 7] = [
        Health::Fine,
        Health::Paused,
        Health::Working,
        Health::Stressed,
        Health::Exhausted,
        Health::Done,
        Health::Holding,
    ];

    /// The mood as the word the estate uses, lower case: what a snapshot
    /// publishes, what a command prints and what a stylesheet class is.
    pub fn word(self) -> (r: &'static str)
        ensures
            r@ == health_word(self),
    {
        match self {
            Health::Fine => "fine",
            Health::Paused => "paused",
            Health::Working => "working",
            Health::Stressed => "stressed",
            Health::Exhausted => "exhausted",
            Health::Done => "done",
            Health::Holding => "holding",
        }
    }

    /// The mood a word names, exactly and in lower case, or `None` when no
    /// mood is called that.
    pub fn named(word: &str) -> (r: Option<Health>)
        ensures
            r == health_named(word@),
    {
        if same_text(word, "fine") {
            Some(Health::Fine)
        } else if same_text(word, "paused") {
            Some(Health::Paused)
        } else if same_text(word, "working") {
            Some(Health::Working)
        } else if same_text(word, "stressed") {
            Some(Health::Stressed)
        } else if same_text(word, "exhausted") {
            Some(Health::Exhausted)
        } else if same_text(word, "done") {
            Some(Health::Done)
        } else if same_text(word, "holding") {
            Some(Health::Holding)
        } else {
            None
        }
    }

    /// What a parent shows when this is the worst mood beneath it: `Fine`
    /// when it is `Fine`, and `Holding` the moment it is anything else.
    pub fn rolled(self) -> (r: Health)
        ensures
            r == health_rolled(self),
    {
        match self {
            Health::Fine => Health::Fine,
            _ => Health::Holding,
        }
    }

    /// The name of the color a surface paints the mood in: the name, never
    /// the paint.
    pub fn color(self) -> (r: &'static str)
        ensures
            r@ == health_color(self),
    {
        match self {
            Health::Fine => "green",
            Health::Paused => "slate",
            Health::Working => "blue",
            Health::Stressed => "yellow",
            Health::Exhausted => "burnt",
            Health::Done => "red",
            Health::Holding => "orange",
        }
    }

    /// How bad the mood is: its place in the declaration order.
    pub fn rank(self) -> (r: u8)
        ensures
            r == health_rank(self),
    {
        match self {
            Health::Fine => 0,
            Health::Paused => 1,
            Health::Working => 2,
            Health::Stressed => 3,
            Health::Exhausted => 4,
            Health::Done => 5,
            Health::Holding => 6,
        }
    }
}

/// What a reader takes a word for: the mood it names, or `Stressed` for a
/// word no mood is called, so that it shows and is looked at.
pub open spec fn health_read(word: Seq<char>) -> Health {
    match health_named(word) {
        Some(health) => health,
        None => Health::Stressed,
    }
}

impl Health {
    /// What a mood no one is called reads as: `Stressed`, so it shows and is
    /// looked at.
    pub fn unknown() -> (r: Health)
        ensures
            r == Health::Stressed,
    {
        Health::Stressed
    }

    /// The mood a word names, or [`Health::unknown`] for a word no mood is
    /// called: how a reader reads a mood it may not know.
    pub fn read(word: &str) -> (r: Health)
        ensures
            r == health_read(word@),
    {
        match Health::named(word) {
            Some(health) => health,
            None => Health::unknown(),
        }
    }
}

/// Every mood's word names it back, and no two moods share a word.
pub proof fn law_health_word_names_it(health: Health)
    ensures
        health_named(health_word(health)) == Some(health),
{
    reveal_strlit("fine");
    reveal_strlit("paused");
    reveal_strlit("working");
    reveal_strlit("stressed");
    reveal_strlit("exhausted");
    reveal_strlit("done");
    reveal_strlit("holding");
    assert("fine"@.len() == 4 && "paused"@.len() == 6 && "working"@.len() == 7);
    assert("stressed"@.len() == 8 && "exhausted"@.len() == 9 && "done"@.len() == 4);
    assert("holding"@.len() == 7);
    assert("working"@[0] != "holding"@[0]);
    assert("fine"@[0] != "done"@[0]);
    assert("working"@ != "holding"@);
    assert("fine"@ != "done"@);
}

/// A parent shows `Fine` or `Holding`, and nothing else.
pub proof fn law_rolled_is_fine_or_holding(health: Health)
    ensures
        health_rolled(health) == Health::Fine || health_rolled(health) == Health::Holding,
        health_rolled(health) == Health::Fine <==> health == Health::Fine,
{
}

/// Where one record stands in the worst-first order every reader returns
/// health in: the worse mood first, then the higher severity, then the
/// scope in byte order so that equals answer the same way every time.
#[derive(Clone, Copy, Debug, PartialEq, Eq)]
pub struct Standing<'a> {
    pub health: Health,
    pub severity: u8,
    pub scope: &'a str,
}

/// What a standing is ordered by.
pub open spec fn standing_key(standing: Standing) -> KeyView {
    (health_rank(standing.health) as u8, standing.severity, standing.scope.spec_bytes())
}

/// Where `a` stands against `b`: `Less` when it is the worse, `Equal` when
/// they are the same standing, `Greater` when `b` is the worse.
pub open spec fn standing_order(a: Standing, b: Standing) -> Ordering {
    let c = key_order(standing_key(a), standing_key(b));
    if c < 0 {
        Ordering::Less
    } else if c == 0 {
        Ordering::Equal
    } else {
        Ordering::Greater
    }
}

impl<'a> Standing<'a> {
    fn key(&self) -> (r: Key<'a>)
        ensures
            key_view(r) == standing_key(*self),
    {
        (self.health.rank(), self.severity, self.scope)
    }

    /// `Less` is worse: a sort puts the worst record first.
    pub fn cmp(&self, other: &Self) -> (r: Ordering)
        ensures
            r == standing_order(*self, *other),
    {
        let a = self.key();
        let b = other.key();
        let c = compare_keys(&a, &b);
        if c < 0 {
            Ordering::Less
        } else if c == 0 {
            Ordering::Equal
        } else {
            Ordering::Greater
        }
    }
}

impl<'a> PartialOrd for Standing<'a> {
    /// Always an order: the standing's place in the worst-first order.
    fn partial_cmp(&self, other: &Self) -> (r: Option<Ordering>) {
        Some(self.cmp(other))
    }
}

impl<'a> PartialOrdSpecImpl for Standing<'a> {
    open spec fn obeys_partial_cmp_spec() -> bool {
        true
    }

    open spec fn partial_cmp_spec(&self, other: &Self) -> Option<Ordering> {
        Some(standing_order(*self, *other))
    }
}

/// The keys of many standings, in the order given.
pub open spec fn standing_keys<'a>(standings: Seq<Standing<'a>>) -> Seq<KeyView> {
    standings.map_values(|s: Standing<'a>| standing_key(s))
}

impl<'a> Standing<'a> {
    /// Many records in the worst-first order, as the positions they hold in
    /// `standings`: the first index is the worst record's. Equals keep the
    /// order they came in.
    pub fn worst_first(standings: &[Standing<'a>]) -> (order: Vec<usize>)
        ensures
            is_worst_first(standing_keys(standings@), order@),
    {
        let mut keys: Vec<Key<'a>> = Vec::new();
        let mut i: usize = 0;
        while i < standings.len()
            invariant
                i <= standings@.len(),
                keys_view(keys@) == standing_keys(standings@).take(i as int),
            decreases standings@.len() - i,
        {
            let key = standings[i].key();
            let ghost before = keys@;
            keys.push(key);
            assert(keys_view(keys@) =~= keys_view(before).push(key_view(key)));
            assert(standing_keys(standings@).take(i + 1) =~= standing_keys(standings@).take(
                i as int,
            ).push(key_view(key)));
            i = i + 1;
        }
        assert(keys_view(keys@) =~= standing_keys(standings@));
        worst_first_positions(keys.as_slice())
    }
}

} // verus!
