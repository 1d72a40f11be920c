use gomoku_core::cli::{CliArgs, FirstPlayerArg, GameModeArg};
use gomoku_core::game::{Game, GameMode, StepEvent};
use gomoku_core::player::{PlayerType, Role};
use gomoku_core::scores::Scores;
use gomoku_core::shapes::Shape;
use gomoku_core::terminal_ui::{GameAction, TerminalUI};

#[test]
fn test_game_cursor_and_place() {
    let args = CliArgs {
        mode: GameModeArg::HumanHuman,
        size: 9,
        depth: 0,
        first_player: FirstPlayerArg::Human,
    };
    let (p1, p2) = args.players();
    let mut game = Game::new(9, GameMode::HumanvHuman, p1, p2);
    assert!(game.needs_input());
    assert_eq!((game.cursor_x, game.cursor_y), (4, 4));

    let s = game.run(GameAction::MoveLeft);
    assert!(!s.quit);
    assert_eq!((game.cursor_x, game.cursor_y), (3, 4));

    let s = game.run(GameAction::PlaceStone);
    assert!(!s.quit);
    assert_eq!(game.board.get_cell(3, 4), Role::Black.to_int());
    assert_eq!(game.current_role, Role::White);

    let s = game.run(GameAction::Undo);
    assert!(!s.quit);
    assert_eq!(s.event, StepEvent::Nothing);
    assert_eq!(game.board.get_cell(3, 4), 0);
}

#[test]
fn test_game_quit_and_pause() {
    let args = CliArgs {
        mode: GameModeArg::HumanHuman,
        size: 5,
        depth: 0,
        first_player: FirstPlayerArg::Human,
    };
    let (p1, p2) = args.players();
    let mut game = Game::new(5, GameMode::HumanvHuman, p1, p2);
    let s = game.run(GameAction::TogglePause);
    assert!(!s.quit);
    assert!(game.paused);
    let s = game.run(GameAction::Idle);
    assert!(!s.quit);
    assert!(game.paused);
    let s = game.run(GameAction::TogglePause);
    assert!(!s.quit);
    assert!(!game.paused);
    let s = game.run(GameAction::Quit);
    assert!(s.quit);
}

#[test]
fn test_game_undo_on_empty_reports() {
    let args = CliArgs {
        mode: GameModeArg::HumanHuman,
        size: 5,
        depth: 0,
        first_player: FirstPlayerArg::Human,
    };
    let (p1, p2) = args.players();
    let mut game = Game::new(5, GameMode::HumanvHuman, p1, p2);
    let s = game.run(GameAction::Undo);
    assert_eq!(s.event, StepEvent::NothingToUndo);
}

#[test]
fn test_ai_versus_ai_plays_a_move() {
    let args = CliArgs {
        mode: GameModeArg::AiAi,
        size: 9,
        depth: 1,
        first_player: FirstPlayerArg::AI,
    };
    let (p1, p2) = args.players();
    assert_eq!(p1.player_type, PlayerType::AI);
    let mut game = Game::new(9, GameMode::AIvAI, p1, p2);
    assert!(!game.needs_input());
    let s = game.run(GameAction::Idle);
    assert!(!s.quit);
    assert_eq!(s.event, StepEvent::AiMoved);
    assert_eq!(game.board.history.len(), 1);
    assert_eq!(game.board.get_cell(4, 4), Role::Black.to_int());
    assert_eq!(game.current_role, Role::White);
}

#[test]
fn test_mode_mismatch_guards() {
    let args = CliArgs {
        mode: GameModeArg::AiAi,
        size: 5,
        depth: 1,
        first_player: FirstPlayerArg::AI,
    };
    let (p1, p2) = args.players();
    // a session wrongly labelled human-versus-human but driven by engines
    let mut game = Game::new(5, GameMode::HumanvHuman, p1, p2);
    let s = game.run(GameAction::Idle);
    assert!(s.quit);
    assert_eq!(s.event, StepEvent::ModeMismatch);
}

#[test]
fn test_scores_table() {
    assert_eq!(Scores::get(Shape::FIVE), 10_000_000);
    assert_eq!(Scores::get(Shape::OPEN_FOUR), 500_000);
    assert_eq!(Scores::get(Shape::NONE), 0);
}

#[test]
fn test_terminal_message_kept() {
    let mut ui = TerminalUI::new();
    assert!(ui.last_message.is_empty());
    ui.show_message("your move");
    assert_eq!(ui.last_message, "your move");
}
