//! The closed set of transitions a caller can request from the minesweeper
//! domain.

use vstd::prelude::*;

use crate::dispatch::DispatchAction;
use crate::state::Difficulty;

verus! {

#[derive(Clone, Copy, Debug, PartialEq, Eq, Structural)]
pub enum Action {
    Reveal(usize, usize),
    ToggleFlag(usize, usize),
    CursorUp,
    CursorDown,
    CursorLeft,
    CursorRight,
    SetDifficulty(Difficulty),
    NewGame,
    Quit,
}

impl DispatchAction for Action {
    open spec fn is_quit_spec(self) -> bool {
        self == Action::Quit
    }

    fn is_quit(&self) -> (b: bool) {
        match self {
            Action::Quit => true,
            _ => false,
        }
    }
}

} // verus!
