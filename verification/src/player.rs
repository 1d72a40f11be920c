//! The two competing sides and the players that hold them.

use vstd::prelude::*;

verus! {

/// Kind of a player: a person at the keyboard or the search engine.
#[derive(Debug, Clone, Copy, PartialEq, Eq, Structural)]
pub enum PlayerType {
    Human,
    AI,
}

/// One of the two sides. Black stones are encoded as -1 on the grid,
/// white stones as +1; the wall around the grid is a third value, 2.
#[derive(Debug, Clone, Copy, PartialEq, Eq, Hash, Structural)]
pub enum Role {
    Black,
    White,
}

impl Role {
    /// The integer a stone of this role carries on the grid.
    pub open spec fn to_int_spec(self) -> int {
        match self {
            Role::Black => -1,
            Role::White => 1,
        }
    }

    pub open spec fn opponent_spec(self) -> Role {
        match self {
            Role::Black => Role::White,
            Role::White => Role::Black,
        }
    }

    pub fn opponent(&self) -> (r: Role)
        ensures
            r == self.opponent_spec(),
    {
        match self {
            Role::Black => Role::White,
            Role::White => Role::Black,
        }
    }

    pub fn to_int(&self) -> (r: i32)
        ensures
            r as int == self.to_int_spec(),
    {
        match self {
            Role::Black => -1,
            Role::White => 1,
        }
    }
}

/// A participant in a game: who moves the stones of `role`, and, for the
/// engine, how deep it searches.
#[derive(Debug, Clone, Copy)]
pub struct Player {
    pub player_type: PlayerType,
    pub role: Role,
    pub depth: i32,
}

} // verus!
