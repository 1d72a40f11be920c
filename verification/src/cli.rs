//! Plain command-line options. The argument parsing itself lives with the
//! binary around the library; these are the values it hands over.

use crate::player::Player;
use crate::player::PlayerType;
use crate::player::Role;
use vstd::prelude::*;

verus! {

/// Requested game mode.
#[derive(Debug, Clone, Copy, PartialEq, Eq, Structural)]
pub enum GameModeArg {
    HumanHuman,
    HumanAi,
    AiAi,
}

/// Who moves first in a human-versus-engine game.
#[derive(Debug, Clone, Copy, PartialEq, Eq, Structural)]
pub enum FirstPlayerArg {
    Human,
    AI,
}

/// The parsed command line: mode, board side, search depth, first player.
#[derive(Debug, Clone, Copy)]
pub struct CliArgs {
    pub mode: GameModeArg,
    pub size: usize,
    pub depth: i32,
    pub first_player: FirstPlayerArg,
}

impl CliArgs {
    /// The two players the options describe: black moves first; in the
    /// human-versus-engine mode `first_player` decides who takes black.
    pub fn players(&self) -> (r: (Player, Player))
        ensures
            r.0.role == Role::Black,
            r.1.role == Role::White,
            self.mode == GameModeArg::HumanHuman ==> r.0.player_type == PlayerType::Human
                && r.1.player_type == PlayerType::Human,
            self.mode == GameModeArg::AiAi ==> r.0.player_type == PlayerType::AI
                && r.1.player_type == PlayerType::AI && r.0.depth == self.depth && r.1.depth
                == self.depth,
            self.mode == GameModeArg::HumanAi && self.first_player == FirstPlayerArg::Human
                ==> r.0.player_type == PlayerType::Human && r.1.player_type == PlayerType::AI
                && r.1.depth == self.depth,
            self.mode == GameModeArg::HumanAi && self.first_player == FirstPlayerArg::AI
                ==> r.0.player_type == PlayerType::AI && r.1.player_type == PlayerType::Human
                && r.0.depth == self.depth,
    {
        match self.mode {
            GameModeArg::HumanHuman => (
                Player { player_type: PlayerType::Human, role: Role::Black, depth: 0 },
                Player { player_type: PlayerType::Human, role: Role::White, depth: 0 },
            ),
            GameModeArg::AiAi => (
                Player { player_type: PlayerType::AI, role: Role::Black, depth: self.depth },
                Player { player_type: PlayerType::AI, role: Role::White, depth: self.depth },
            ),
            GameModeArg::HumanAi => match self.first_player {
                FirstPlayerArg::Human => (
                    Player { player_type: PlayerType::Human, role: Role::Black, depth: 0 },
                    Player { player_type: PlayerType::AI, role: Role::White, depth: self.depth },
                ),
                FirstPlayerArg::AI => (
                    Player { player_type: PlayerType::AI, role: Role::Black, depth: self.depth },
                    Player { player_type: PlayerType::Human, role: Role::White, depth: 0 },
                ),
            },
        }
    }
}

} // verus!
