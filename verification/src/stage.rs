//! The three stages of the message path, as the words a scope's segments
//! name them by.

use vstd::prelude::*;
use crate::text::same_text;

verus! {

/// A stage of the message path: where a Stream arrives, where a Journey
/// runs, where a Message leaves.
#[derive(Clone, Copy, Debug, PartialEq, Eq, Structural, Hash)]
pub enum Stage {
    Receive,
    Process,
    Send,
}

/// The word a stage is named by, exactly and in lower case.
pub open spec fn stage_word(stage: Stage) -> Seq<char> {
    match stage {
        Stage::Receive => "receive"@,
        Stage::Process => "process"@,
        Stage::Send => "send"@,
    }
}

/// The stage a word names, or `None`.
pub open spec fn stage_named(word: Seq<char>) -> Option<Stage> {
    if word == stage_word(Stage::Receive) {
        Some(Stage::Receive)
    } else if word == stage_word(Stage::Process) {
        Some(Stage::Process)
    } else if word == stage_word(Stage::Send) {
        Some(Stage::Send)
    } else {
        None
    }
}

impl Stage {
    /// Every stage, in the order a message passes them.
    pub const ALL: [Stage; 3] = [Stage::Receive, Stage::Process, Stage::Send];

    /// The stage a word names, exactly and in lower case, or `None`.
    pub fn named(word: &str) -> (r: Option<Stage>)
        ensures
            r == stage_named(word@),
    {
        if same_text(word, "receive") {
            Some(Stage::Receive)
        } else if same_text(word, "process") {
            Some(Stage::Process)
        } else if same_text(word, "send") {
            Some(Stage::Send)
        } else {
            None
        }
    }
}

/// No two stages share a word, so a stage's word names it back.
pub proof fn law_stage_named_word(stage: Stage)
    ensures
        stage_named(stage_word(stage)) == Some(stage),
{
    reveal_strlit("receive");
    reveal_strlit("process");
    reveal_strlit("send");
    assert("receive"@ != "process"@) by {
        assert("receive"@[0] != "process"@[0]);
    }
}

} // verus!
