//! A connect-five board-game engine: an incrementally evaluated board with
//! an order-independent position fingerprint, a bounded FIFO memo cache,
//! and an alpha-beta negamax search with a forced-win phase and a
//! transposition table.

pub mod ai;
pub mod board;
pub mod cache;
pub mod cli;
pub mod game;
pub mod laws;
pub mod patterns;
pub mod player;
pub mod scores;
pub mod shapes;
pub mod terminal_ui;
pub mod zobrist_cache;

pub use ai::AIEngine;
pub use board::Board;
pub use cache::Cache;
pub use cache::CacheConfig;
pub use game::Game;
pub use game::GameMode;
pub use player::Player;
pub use player::PlayerType;
pub use player::Role;
pub use terminal_ui::GameAction;
pub use terminal_ui::TerminalUI;
pub use zobrist_cache::ZobristCache;
