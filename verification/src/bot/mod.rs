//! Computer opponents. Bots decide from a redacted `PlayerView` only, so
//! they are structurally incapable of cheating.

use vstd::prelude::*;

pub mod easy;
pub mod heuristic;

pub use easy::EasyBot;
pub use heuristic::HeuristicBot;

verus! {

#[derive(Debug, Clone, Copy, PartialEq, Eq, Structural)]
pub enum Difficulty {
    Easy,
    Medium,
    Hard,
}

impl Difficulty {
    /// The difficulty's name as players see it.
    pub open spec fn name_spec(self) -> Seq<char> {
        match self {
            Difficulty::Easy => "Easy"@,
            Difficulty::Medium => "Medium"@,
            Difficulty::Hard => "Hard"@,
        }
    }

    pub fn name(self) -> (s: &'static str)
        ensures
            s@ == self.name_spec(),
    {
        match self {
            Difficulty::Easy => "Easy",
            Difficulty::Medium => "Medium",
            Difficulty::Hard => "Hard",
        }
    }
}

} // verus!
