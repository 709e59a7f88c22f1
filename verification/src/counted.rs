//! What a count counts, what each kind is called, and which kind a stage of
//! the message path counts.

use vstd::prelude::*;
use vstd::string::*;
use crate::stage::Stage;
use crate::text::same_text;

verus! {

/// What a count counts. Never a bare number.
#[derive(Clone, Copy, Debug, PartialEq, Eq, Structural, PartialOrd, Ord, Hash)]
pub enum Counted {
    Streams,
    Messages,
    Journeys,
    Bytes,
    /// Delivery or processing attempts awaiting another try.
    Retrying,
    /// Delivery or processing outcomes that ended unsuccessfully.
    Failed,
}

/// A kind's place in the order a publication lists them.
pub open spec fn counted_rank(counted: Counted) -> int {
    match counted {
        Counted::Streams => 0,
        Counted::Messages => 1,
        Counted::Journeys => 2,
        Counted::Bytes => 3,
        Counted::Retrying => 4,
        Counted::Failed => 5,
    }
}

/// The word a kind is called, lower case.
pub open spec fn counted_word(counted: Counted) -> Seq<char> {
    match counted {
        Counted::Streams => "streams"@,
        Counted::Messages => "messages"@,
        Counted::Journeys => "journeys"@,
        Counted::Bytes => "bytes"@,
        Counted::Retrying => "retrying"@,
        Counted::Failed => "failed"@,
    }
}

/// The kind a word names, exactly, or `None`.
pub open spec fn counted_named(word: Seq<char>) -> Option<Counted> {
    if word == counted_word(Counted::Streams) {
        Some(Counted::Streams)
    } else if word == counted_word(Counted::Messages) {
        Some(Counted::Messages)
    } else if word == counted_word(Counted::Journeys) {
        Some(Counted::Journeys)
    } else if word == counted_word(Counted::Bytes) {
        Some(Counted::Bytes)
    } else if word == counted_word(Counted::Retrying) {
        Some(Counted::Retrying)
    } else if word == counted_word(Counted::Failed) {
        Some(Counted::Failed)
    } else {
        None
    }
}

/// What a stage of the message path counts: Streams at Receive, Journeys in
/// Process, Messages at Send.
pub open spec fn counted_at(stage: Stage) -> Counted {
    match stage {
        Stage::Receive => Counted::Streams,
        Stage::Process => Counted::Journeys,
        Stage::Send => Counted::Messages,
    }
}

impl Counted {
    /// Every kind, in the order a publication lists them.
    pub const ALL: [Counted; 6] = [
        Counted::Streams,
        Counted::Messages,
        Counted::Journeys,
        Counted::Bytes,
        Counted::Retrying,
        Counted::Failed,
    ];

    /// The kind as the word the estate uses, lower case: what a publication
    /// writes and what a command names a figure by.
    pub fn word(self) -> (r: &'static str)
        ensures
            r@ == counted_word(self),
    {
        match self {
            Counted::Streams => "streams",
            Counted::Messages => "messages",
            Counted::Journeys => "journeys",
            Counted::Bytes => "bytes",
            Counted::Retrying => "retrying",
            Counted::Failed => "failed",
        }
    }

    /// The kind a word names, exactly and in lower case, or `None` when no
    /// kind is called that.
    pub fn named(word: &str) -> (r: Option<Counted>)
        ensures
            r == counted_named(word@),
    {
        if same_text(word, "streams") {
            Some(Counted::Streams)
        } else if same_text(word, "messages") {
            Some(Counted::Messages)
        } else if same_text(word, "journeys") {
            Some(Counted::Journeys)
        } else if same_text(word, "bytes") {
            Some(Counted::Bytes)
        } else if same_text(word, "retrying") {
            Some(Counted::Retrying)
        } else if same_text(word, "failed") {
            Some(Counted::Failed)
        } else {
            None
        }
    }

    /// What a stage of the message path counts, the three words kept apart.
    pub fn at(stage: Stage) -> (r: Counted)
        ensures
            r == counted_at(stage),
    {
        match stage {
            Stage::Receive => Counted::Streams,
            Stage::Process => Counted::Journeys,
            Stage::Send => Counted::Messages,
        }
    }

    /// The kind's place in the order a publication lists them.
    pub fn rank(self) -> (r: u8)
        ensures
            r == counted_rank(self),
    {
        match self {
            Counted::Streams => 0,
            Counted::Messages => 1,
            Counted::Journeys => 2,
            Counted::Bytes => 3,
            Counted::Retrying => 4,
            Counted::Failed => 5,
        }
    }
}

/// Every kind's word names it back, and no two kinds share a word.
pub proof fn law_counted_word_names_it(counted: Counted)
    ensures
        counted_named(counted_word(counted)) == Some(counted),
{
    reveal_strlit("streams");
    reveal_strlit("messages");
    reveal_strlit("journeys");
    reveal_strlit("bytes");
    reveal_strlit("retrying");
    reveal_strlit("failed");
    assert("streams"@.len() == 7 && "messages"@.len() == 8 && "journeys"@.len() == 8);
    assert("bytes"@.len() == 5 && "retrying"@.len() == 8 && "failed"@.len() == 6);
    assert("messages"@[0] != "journeys"@[0] && "messages"@ != "journeys"@);
    assert("messages"@[0] != "retrying"@[0] && "messages"@ != "retrying"@);
    assert("journeys"@[0] != "retrying"@[0] && "journeys"@ != "retrying"@);
}

/// The three stages count three different kinds.
pub proof fn law_stages_count_apart(a: Stage, b: Stage)
    ensures
        counted_at(a) == counted_at(b) <==> a == b,
{
}

} // verus!
