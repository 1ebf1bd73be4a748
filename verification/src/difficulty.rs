//! The three presets of the game.

use vstd::prelude::*;

verus! {

/// A preset of the game. The order of the variants is the order in which a
/// selection cycles through them.
#[derive(Clone, Copy, PartialEq, Eq, PartialOrd, Ord, Hash, Debug, Structural)]
pub enum Difficulty {
    Easy,
    Medium,
    Hard,
}

impl Difficulty {
    /// How many mines a board of this preset holds.
    pub open spec fn mine_total(self) -> nat {
        match self {
            Difficulty::Easy => 10,
            Difficulty::Medium => 40,
            Difficulty::Hard => 99,
        }
    }

    /// How many cells a board of this preset has, whatever its orientation.
    pub open spec fn area(self) -> nat {
        match self {
            Difficulty::Easy => 80,
            Difficulty::Medium => 252,
            Difficulty::Hard => 480,
        }
    }

    /// The position of the preset in the order of the variants.
    pub open spec fn rank(self) -> int {
        match self {
            Difficulty::Easy => 0,
            Difficulty::Medium => 1,
            Difficulty::Hard => 2,
        }
    }

    /// The preset at a position, counted modulo three.
    pub open spec fn at_rank(r: int) -> Difficulty {
        if r % 3 == 0 {
            Difficulty::Easy
        } else if r % 3 == 1 {
            Difficulty::Medium
        } else {
            Difficulty::Hard
        }
    }

    /// The name of the preset as it is shown and stored.
    pub open spec fn label(self) -> Seq<char> {
        match self {
            Difficulty::Easy => "Easy"@,
            Difficulty::Medium => "Medium"@,
            Difficulty::Hard => "Hard"@,
        }
    }

    pub fn as_static_str(self) -> (name: &'static str)
        ensures
            name@ == self.label(),
    {
        match self {
            Difficulty::Easy => "Easy",
            Difficulty::Medium => "Medium",
            Difficulty::Hard => "Hard",
        }
    }

    /// The number of mines of the preset.
    pub fn mines(self) -> (n: usize)
        ensures
            n == self.mine_total(),
    {
        match self {
            Difficulty::Easy => 10,
            Difficulty::Medium => 40,
            Difficulty::Hard => 99,
        }
    }

    /// The position of the preset in a list of the three.
    pub fn index(self) -> (i: usize)
        ensures
            i == self.rank(),
    {
        match self {
            Difficulty::Easy => 0,
            Difficulty::Medium => 1,
            Difficulty::Hard => 2,
        }
    }

    /// The preset after this one; after the last comes the first.
    pub fn next(self) -> (d: Difficulty)
        ensures
            d == Difficulty::at_rank(self.rank() + 1),
    {
        match self {
            Difficulty::Easy => Difficulty::Medium,
            Difficulty::Medium => Difficulty::Hard,
            Difficulty::Hard => Difficulty::Easy,
        }
    }

    /// The preset before this one; before the first comes the last.
    pub fn previous(self) -> (d: Difficulty)
        ensures
            d == Difficulty::at_rank(self.rank() + 2),
    {
        match self {
            Difficulty::Easy => Difficulty::Hard,
            Difficulty::Medium => Difficulty::Easy,
            Difficulty::Hard => Difficulty::Medium,
        }
    }
}

/// Cycling forward three times, or forward and then back, returns to the
/// preset one started from, and `at_rank` undoes `rank`.
pub proof fn cycle_wraps_around(d: Difficulty)
    ensures
        Difficulty::at_rank(d.rank()) == d,
        Difficulty::at_rank(Difficulty::at_rank(d.rank() + 1).rank() + 2) == d,
        Difficulty::at_rank(Difficulty::at_rank(Difficulty::at_rank(d.rank() + 1).rank() + 1).rank() + 1) == d,
{
}

} // verus!
