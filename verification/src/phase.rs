//! The phases of a game.

use vstd::prelude::*;
use std::time::Instant;

verus! {

/// The phase of a game. A game is not started until the first click on a
/// cell; it is in progress until it is won or lost.
#[derive(Clone, Copy)]
pub enum Phase {
    NotStarted,
    InProgress { started_at: Instant },
    Won { started_at: Instant, ended_at: Instant },
    Lost { started_at: Instant, ended_at: Instant, epicenter: (usize, usize), animation_progress: u32 },
}

impl Phase {
    /// The game has seen its first click.
    pub open spec fn started(self) -> bool {
        !(self is NotStarted)
    }

    /// The game is won or lost.
    pub open spec fn ended(self) -> bool {
        self is Won || self is Lost
    }

    /// The moment of the first click.
    pub open spec fn first_move(self) -> Option<Instant> {
        match self {
            Phase::NotStarted => None,
            Phase::InProgress { started_at } => Some(started_at),
            Phase::Won { started_at, .. } => Some(started_at),
            Phase::Lost { started_at, .. } => Some(started_at),
        }
    }

    /// The moment at which the game was won or lost.
    pub open spec fn last_move(self) -> Option<Instant> {
        match self {
            Phase::Won { ended_at, .. } => Some(ended_at),
            Phase::Lost { ended_at, .. } => Some(ended_at),
            _ => None,
        }
    }

    pub fn is_started(&self) -> (b: bool)
        ensures
            b == self.started(),
    {
        match self {
            Phase::NotStarted => false,
            _ => true,
        }
    }

    pub fn is_ended(&self) -> (b: bool)
        ensures
            b == self.ended(),
    {
        match self {
            Phase::Won { .. } => true,
            Phase::Lost { .. } => true,
            _ => false,
        }
    }
}

} // verus!
