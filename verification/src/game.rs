//! A game session as a state machine. Each call of `run` takes one player
//! action (or a tick, for the engine's turns) and advances the session one
//! step; everything that must reach the screen comes back as an event, so
//! the rendering and the key reading stay outside the library.

use crate::ai::AIEngine;
use crate::ai::VALUE_LIMIT;
use crate::board::Board;
use crate::board::board_full;
use crate::board::has_five;
use crate::board::pos_eq;
use crate::patterns::cell_at;
use crate::player::Player;
use crate::player::PlayerType;
use crate::player::Role;
use crate::terminal_ui::GameAction;
use vstd::prelude::*;

verus! {

/// Who plays whom.
#[derive(Debug, Clone, Copy, PartialEq, Eq, Structural)]
pub enum GameMode {
    AIvAI,
    AIvHuman,
    HumanvHuman,
}

/// What one step of the session asks the surroundings to do.
#[derive(Debug, Clone, Copy, PartialEq, Eq, Structural)]
pub enum StepEvent {
    Nothing,
    AiMoved,
    AiPassed,
    NothingToUndo,
    ModeMismatch,
    Draw,
    WhiteWon,
    BlackWon,
}

/// The outcome of one step: whether the session ends, what happened, and
/// the engine's score when it moved.
#[derive(Debug, Clone, Copy)]
pub struct StepOutcome {
    pub quit: bool,
    pub event: StepEvent,
    pub value: i64,
}

/// A running session: the board, the two players with their engines, the
/// cursor for human input, and the turn bookkeeping.
pub struct Game {
    pub board: Board,
    pub mode: GameMode,
    pub player1: Player,
    pub player2: Player,
    pub ai1: AIEngine,
    pub ai2: AIEngine,
    pub cursor_x: usize,
    pub cursor_y: usize,
    pub last_stone_x: Option<usize>,
    pub last_stone_y: Option<usize>,
    pub current_role: Role,
    pub round: i32,
    pub paused: bool,
    pub game_is_over: bool,
}

/// The player whose turn it is in session `g`.
pub open spec fn spec_current_player(g: Game) -> Player {
    if g.current_role == g.player1.role {
        g.player1
    } else {
        g.player2
    }
}

/// Whether session `g` is live (neither paused nor over) with a person to
/// move.
pub open spec fn human_to_move(g: Game) -> bool {
    !g.paused && !g.game_is_over && spec_current_player(g).player_type == PlayerType::Human
}

impl Game {
    /// The session's invariant: its board and engines are well-formed and
    /// the cursor stays on the board.
    pub open spec fn wf(self) -> bool {
        &&& self.board.wf()
        &&& self.ai1.wf()
        &&& self.ai2.wf()
        &&& (self.cursor_x as int) < self.board.sz()
        &&& (self.cursor_y as int) < self.board.sz()
    }

    /// A fresh session on a `size` by `size` board, the cursor at the
    /// center, player 1 to move.
    pub fn new(size: usize, mode: GameMode, p1: Player, p2: Player) -> (r: Game)
        requires
            1 <= size <= 1024,
            0 <= p1.depth <= 1000,
            0 <= p2.depth <= 1000,
        ensures
            r.wf(),
            r.board.sz() == size,
            r.board.spec_history().len() == 0,
            r.mode == mode,
            r.player1 == p1,
            r.player2 == p2,
            r.current_role == p1.role,
            r.round == 1,
            !r.paused,
            !r.game_is_over,
    {
        let board = Board::new(size);
        let ai1 = AIEngine::new(p1.depth);
        let ai2 = AIEngine::new(p2.depth);
        Game {
            board,
            mode,
            player1: p1,
            player2: p2,
            ai1,
            ai2,
            cursor_x: size / 2,
            cursor_y: size / 2,
            last_stone_x: None,
            last_stone_y: None,
            current_role: p1.role,
            round: 1,
            paused: false,
            game_is_over: false,
        }
    }

    /// The player whose turn it is.
    pub fn current_player(&self) -> (r: Player)
        ensures
            r == if self.current_role == self.player1.role {
                self.player1
            } else {
                self.player2
            },
    {
        if self.current_role == self.player1.role {
            self.player1
        } else {
            self.player2
        }
    }

    /// Whether the next step waits on a keypress: the session is paused or
    /// over, or a person is to move.
    pub fn needs_input(&self) -> (r: bool)
        ensures
            r == (self.paused || self.game_is_over || (if self.current_role
                == self.player1.role {
                self.player1
            } else {
                self.player2
            }).player_type == PlayerType::Human),
    {
        if self.paused || self.game_is_over {
            return true;
        }
        let p = self.current_player();
        match p.player_type {
            PlayerType::Human => true,
            PlayerType::AI => false,
        }
    }

    /// Play the pending human move at the cursor.
    fn human_turn(&mut self)
        requires
            old(self).wf(),
            cell_at(
                old(self).board.grid(),
                old(self).board.sz(),
                old(self).cursor_x as int,
                old(self).cursor_y as int,
            ) == 0,
        ensures
            final(self).wf(),
            final(self).mode == old(self).mode,
            final(self).player1 == old(self).player1,
            final(self).player2 == old(self).player2,
            final(self).paused == old(self).paused,
            final(self).game_is_over == old(self).game_is_over,
            final(self).current_role == old(self).current_role,
            final(self).cursor_x == old(self).cursor_x,
            final(self).cursor_y == old(self).cursor_y,
            crate::board::put_applied(
                old(self).board,
                final(self).board,
                old(self).cursor_x as int,
                old(self).cursor_y as int,
                old(self).current_role,
            ),
    {
        let ok = self.board.put(self.cursor_x, self.cursor_y, self.current_role);
        proof {
            assert(ok);
        }
        self.last_stone_x = Some(self.cursor_x);
        self.last_stone_y = Some(self.cursor_y);
    }

    /// Ask the mover's engine for a move, play it, and report the engine's
    /// score; a pass leaves the board as it is.
    fn ai_turn(&mut self) -> (r: (i64, bool))
        requires
            old(self).wf(),
        ensures
            final(self).wf(),
            final(self).mode == old(self).mode,
            final(self).player1 == old(self).player1,
            final(self).player2 == old(self).player2,
            final(self).paused == old(self).paused,
            final(self).game_is_over == old(self).game_is_over,
            final(self).current_role == old(self).current_role,
            -VALUE_LIMIT <= r.0 <= VALUE_LIMIT,
            r.1 ==> final(self).board.spec_history().len() == old(self).board.spec_history().len()
                + 1,
            !r.1 ==> pos_eq(final(self).board, old(self).board),
            ({
                let g = old(self).board.grid();
                let sz = old(self).board.sz();
                let engine = if old(self).current_role == old(self).player1.role {
                    old(self).ai1
                } else {
                    old(self).ai2
                };
                (!has_five(g, sz, 1) && !has_five(g, sz, -1) && !board_full(g, sz)
                    && engine.spec_depth() >= 1) ==> r.1
            }),
    {
        let role = self.current_role;
        let (value, move_xy, _path) = if role == self.player1.role {
            self.ai1.make_move(&mut self.board, role)
        } else {
            self.ai2.make_move(&mut self.board, role)
        };
        match move_xy {
            Some((x, y)) => {
                let ghost mid = self.board;
                let ok = self.board.put(x, y, role);
                proof {
                    crate::board::lemma_board_facts(mid);
                    crate::board::lemma_board_facts(old(self).board);
                    if old(self).board.spec_history().len() == 0 {
                        // the engine already placed the center; the second
                        // put hits the occupied cell and changes nothing
                        let sz = old(self).board.sz();
                        assert(x as int == sz / 2 && y as int == sz / 2);
                        assert(crate::patterns::in_range(sz, x as int, y as int));
                        crate::patterns::lemma_gidx_bound_pub(sz, x as int, y as int);
                        assert(mid.grid() == old(self).board.grid().update(
                            crate::patterns::gidx(sz, sz / 2, sz / 2),
                            role.to_int_spec() as i32,
                        ));
                        assert(mid.grid()[crate::patterns::gidx(sz, x as int, y as int)] as int
                            == role.to_int_spec());
                        assert(cell_at(mid.grid(), mid.sz(), x as int, y as int)
                            == role.to_int_spec());
                        assert(!ok);
                        assert(mid.spec_history().len() == old(self).board.spec_history().len()
                            + 1);
                    } else {
                        assert(ok);
                        assert(self.board.spec_history() == mid.spec_history().push(
                            (x, y, role),
                        ));
                    }
                }
                self.last_stone_x = Some(x);
                self.last_stone_y = Some(y);
                (value, true)
            },
            None => (value, false),
        }
    }

    /// Switch the turn to the other side.
    fn switch_turn(&mut self)
        requires
            old(self).wf(),
        ensures
            final(self).wf(),
            final(self).mode == old(self).mode,
            final(self).player1 == old(self).player1,
            final(self).player2 == old(self).player2,
            final(self).paused == old(self).paused,
            final(self).game_is_over == old(self).game_is_over,
            final(self).current_role == old(self).current_role.opponent_spec(),
            final(self).board == old(self).board,
            final(self).ai1 == old(self).ai1,
            final(self).ai2 == old(self).ai2,
            final(self).cursor_x == old(self).cursor_x,
            final(self).cursor_y == old(self).cursor_y,
    {
        self.current_role = self.current_role.opponent();
        if self.round < 2147483647 {
            self.round = self.round + 1;
        }
    }

    /// The winner's event for a finished game.
    fn winner_event(&mut self) -> (r: StepEvent)
        requires
            old(self).wf(),
        ensures
            final(self).wf(),
            final(self).mode == old(self).mode,
            final(self).player1 == old(self).player1,
            final(self).player2 == old(self).player2,
            final(self).paused == old(self).paused,
            final(self).game_is_over == old(self).game_is_over,
            final(self).current_role == old(self).current_role,
            pos_eq(final(self).board, old(self).board),
            r == StepEvent::Draw || r == StepEvent::WhiteWon || r == StepEvent::BlackWon,
    {
        let w = self.board.get_winner();
        if w == 0 {
            StepEvent::Draw
        } else if w > 0 {
            StepEvent::WhiteWon
        } else {
            StepEvent::BlackWon
        }
    }

    /// Advance the session by one step, driven by `action` (a tick, for the
    /// engine's turns). Cursor moves stay on the board; quitting, pausing,
    /// undoing and placing behave as the returned event reports; after a
    /// move the step checks whether the game has ended.
    pub fn run(&mut self, action: GameAction) -> (r: StepOutcome)
        requires
            old(self).wf(),
        ensures
            final(self).wf(),
            final(self).mode == old(self).mode,
            final(self).player1 == old(self).player1,
            final(self).player2 == old(self).player2,
            old(self).paused || old(self).game_is_over ==> {
                &&& r.quit == (old(self).game_is_over || action == GameAction::Quit)
                &&& pos_eq(final(self).board, old(self).board)
                &&& final(self).paused == (if old(self).game_is_over {
                    old(self).paused
                } else {
                    old(self).paused && action != GameAction::TogglePause
                })
            },
            human_to_move(*old(self)) && action == GameAction::Quit ==> r.quit && pos_eq(
                final(self).board,
                old(self).board,
            ),
            human_to_move(*old(self)) && action == GameAction::MoveLeft ==> !r.quit && final(self).cursor_y == old(self).cursor_y && final(self).cursor_x as int == (
            if old(self).cursor_x > 0 {
                old(self).cursor_x as int - 1
            } else {
                0
            }) && pos_eq(final(self).board, old(self).board),
            human_to_move(*old(self)) && action == GameAction::MoveRight ==> !r.quit && final(self).cursor_y == old(self).cursor_y && final(self).cursor_x as int == (
            if old(self).cursor_x as int + 1 < old(self).board.sz() {
                old(self).cursor_x as int + 1
            } else {
                old(self).cursor_x as int
            }) && pos_eq(final(self).board, old(self).board),
            human_to_move(*old(self)) && action == GameAction::MoveUp ==> !r.quit && final(self).cursor_x == old(self).cursor_x && final(self).cursor_y as int == (
            if old(self).cursor_y > 0 {
                old(self).cursor_y as int - 1
            } else {
                0
            }) && pos_eq(final(self).board, old(self).board),
            human_to_move(*old(self)) && action == GameAction::MoveDown ==> !r.quit && final(self).cursor_x == old(self).cursor_x && final(self).cursor_y as int == (
            if old(self).cursor_y as int + 1 < old(self).board.sz() {
                old(self).cursor_y as int + 1
            } else {
                old(self).cursor_y as int
            }) && pos_eq(final(self).board, old(self).board),
            human_to_move(*old(self)) && action == GameAction::Undo ==> !r.quit && ((r.event
                == StepEvent::NothingToUndo) == (old(self).board.spec_history().len() == 0)),
            human_to_move(*old(self)) && action == GameAction::TogglePause ==> !r.quit && final(self).paused && pos_eq(final(self).board, old(self).board),
            human_to_move(*old(self)) && action == GameAction::PlaceStone && cell_at(
                old(self).board.grid(),
                old(self).board.sz(),
                old(self).cursor_x as int,
                old(self).cursor_y as int,
            ) == 0 ==> !r.quit && crate::board::put_applied(
                old(self).board,
                final(self).board,
                old(self).cursor_x as int,
                old(self).cursor_y as int,
                old(self).current_role,
            ) && final(self).current_role == old(self).current_role.opponent_spec(),
            !old(self).paused && !old(self).game_is_over && spec_current_player(
                *old(self),
            ).player_type == PlayerType::AI && old(self).mode == GameMode::HumanvHuman ==> r.quit
                && r.event == StepEvent::ModeMismatch,
            !old(self).paused && !old(self).game_is_over && spec_current_player(
                *old(self),
            ).player_type == PlayerType::AI && old(self).mode != GameMode::HumanvHuman ==> !r.quit
                && final(self).current_role == old(self).current_role.opponent_spec() && (r.event
                == StepEvent::AiMoved || r.event == StepEvent::AiPassed || r.event
                == StepEvent::Draw || r.event == StepEvent::WhiteWon || r.event
                == StepEvent::BlackWon) && (r.event == StepEvent::AiMoved ==> final(self).board.spec_history().len() == old(self).board.spec_history().len() + 1) && (r.event
                == StepEvent::AiPassed ==> pos_eq(final(self).board, old(self).board)),
            ({
                let g = old(self).board.grid();
                let sz = old(self).board.sz();
                let engine = if old(self).current_role == old(self).player1.role {
                    old(self).ai1
                } else {
                    old(self).ai2
                };
                (!old(self).paused && !old(self).game_is_over && spec_current_player(
                    *old(self),
                ).player_type == PlayerType::AI && old(self).mode != GameMode::HumanvHuman
                    && !has_five(g, sz, 1) && !has_five(g, sz, -1) && !board_full(g, sz)
                    && engine.spec_depth() >= 1) ==> r.event != StepEvent::AiPassed
            }),
    {
        proof {
            crate::board::lemma_board_facts(self.board);
        }
        if self.paused || self.game_is_over {
            if self.game_is_over {
                return StepOutcome { quit: true, event: StepEvent::Nothing, value: 0 };
            }
            match action {
                GameAction::Quit => {
                    return StepOutcome { quit: true, event: StepEvent::Nothing, value: 0 };
                },
                GameAction::TogglePause => {
                    self.paused = false;
                    return StepOutcome { quit: false, event: StepEvent::Nothing, value: 0 };
                },
                _ => {
                    return StepOutcome { quit: false, event: StepEvent::Nothing, value: 0 };
                },
            }
        }
        let player = self.current_player();
        let mut moved = false;
        let mut event = StepEvent::Nothing;
        let mut value: i64 = 0;
        match player.player_type {
            PlayerType::AI => {
                if self.mode == GameMode::HumanvHuman {
                    return StepOutcome { quit: true, event: StepEvent::ModeMismatch, value: 0 };
                }
                let (v, placed) = self.ai_turn();
                value = v;
                event = if placed {
                    StepEvent::AiMoved
                } else {
                    StepEvent::AiPassed
                };
                self.switch_turn();
                moved = true;
            },
            PlayerType::Human => {
                match action {
                    GameAction::TogglePause => {
                        self.paused = true;
                    },
                    GameAction::Quit => {
                        return StepOutcome { quit: true, event: StepEvent::Nothing, value: 0 };
                    },
                    GameAction::Undo => {
                        let undone = self.board.undo();
                        if !undone {
                            event = StepEvent::NothingToUndo;
                        }
                    },
                    GameAction::Redo => {},
                    GameAction::MoveLeft => {
                        if self.cursor_x > 0 {
                            self.cursor_x = self.cursor_x - 1;
                        }
                    },
                    GameAction::MoveRight => {
                        if self.cursor_x + 1 < self.board.side() {
                            self.cursor_x = self.cursor_x + 1;
                        }
                    },
                    GameAction::MoveUp => {
                        if self.cursor_y > 0 {
                            self.cursor_y = self.cursor_y - 1;
                        }
                    },
                    GameAction::MoveDown => {
                        if self.cursor_y + 1 < self.board.side() {
                            self.cursor_y = self.cursor_y + 1;
                        }
                    },
                    GameAction::PlaceStone => {
                        if self.board.get_cell(self.cursor_x, self.cursor_y) == 0 {
                            self.human_turn();
                            self.switch_turn();
                            moved = true;
                        }
                    },
                    GameAction::Idle => {},
                }
            },
        }
        if moved {
            if self.board.is_game_over() {
                event = self.winner_event();
                self.game_is_over = true;
            }
        }
        StepOutcome { quit: false, event, value }
    }
}

} // verus!
