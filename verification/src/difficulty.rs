//! The levels of difficulty of a generated puzzle.

use vstd::prelude::*;
use crate::names::str_eq;

verus! {

/// The four possible levels of difficulty.
#[derive(Debug, Clone, Copy, PartialEq, Eq, Structural)]
pub enum Difficulty {
    Beginner,
    Easy,
    Medium,
    Hard,
}

impl Difficulty {
    /// What `from_str` recognises: the level's name.
    pub open spec fn from_str_spec(chars: Seq<char>) -> Option<Difficulty> {
        if chars == "Beginner"@ {
            Some(Difficulty::Beginner)
        } else if chars == "Easy"@ {
            Some(Difficulty::Easy)
        } else if chars == "Medium"@ {
            Some(Difficulty::Medium)
        } else if chars == "Hard"@ {
            Some(Difficulty::Hard)
        } else {
            None
        }
    }

    /// Returns the `Difficulty` corresponding to a given string slice.
    pub fn from_str(difficulty: &str) -> (r: Option<Difficulty>)
        ensures
            r == Difficulty::from_str_spec(difficulty@),
    {
        if str_eq(difficulty, "Beginner") {
            Some(Difficulty::Beginner)
        } else if str_eq(difficulty, "Easy") {
            Some(Difficulty::Easy)
        } else if str_eq(difficulty, "Medium") {
            Some(Difficulty::Medium)
        } else if str_eq(difficulty, "Hard") {
            Some(Difficulty::Hard)
        } else {
            None
        }
    }
}

} // verus!
