//! The input actions a player can take, and the state the terminal view
//! keeps between redraws. The drawing and the key reading themselves live
//! with the binary around the library.

use vstd::prelude::*;

verus! {

/// One keypress worth of intent.
#[derive(Debug, Clone, Copy, PartialEq, Eq, Structural)]
pub enum GameAction {
    Idle,
    Quit,
    TogglePause,
    Undo,
    Redo,
    MoveLeft,
    MoveRight,
    MoveUp,
    MoveDown,
    PlaceStone,
}

/// The view state: the message to keep on the bottom line across redraws.
#[derive(Debug)]
pub struct TerminalUI {
    pub last_message: String,
}

impl TerminalUI {
    /// A view with no message yet.
    pub fn new() -> (r: TerminalUI)
        ensures
            r.last_message@ == Seq::<char>::empty(),
    {
        TerminalUI { last_message: String::new() }
    }

    /// Remember `msg` as the message to show until replaced.
    pub fn show_message(&mut self, msg: &str)
        ensures
            final(self).last_message@ == msg@,
    {
        self.last_message = msg.to_owned();
    }
}

} // verus!
