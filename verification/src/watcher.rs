//! The decisions of the game-log watcher: which log lines mean a reward
//! screen has appeared and which mean the selection is over. Watching the
//! file itself is outside work; the surrounding program feeds lines through
//! these tests.

use vstd::prelude::*;

use crate::text::{contains_str, spec_contains};

verus! {

/// Whether a log line announces that the reward screen appeared.
pub fn line_activates(line: &str) -> (r: bool)
    ensures
        r == (spec_contains(line@, "Pause countdown done"@) || spec_contains(
            line@,
            "Got rewards"@,
        ) || spec_contains(line@, "Created /Lotus/Interface/ProjectionRewardChoice.swf"@)),
{
    contains_str(line, "Pause countdown done") || contains_str(line, "Got rewards")
        || contains_str(line, "Created /Lotus/Interface/ProjectionRewardChoice.swf")
}

/// Whether a log line announces that the reward selection closed.
pub fn line_deactivates(line: &str) -> (r: bool)
    ensures
        r == (spec_contains(line@, "Countdown timer expired"@) || spec_contains(
            line@,
            "Relic timer closed"@,
        ) || spec_contains(line@, "Selection countdown done"@)),
{
    contains_str(line, "Countdown timer expired") || contains_str(line, "Relic timer closed")
        || contains_str(line, "Selection countdown done")
}

} // verus!
