//! The minesweeper reducer: how one action changes the state.
//!
//! The reducer trusts the middleware to have validated the game-rule guards
//! (phase, revealed, flagged); it only checks grid bounds itself, treating an
//! out-of-bounds target as a no-op. The two counters saturate instead of
//! wrapping; under the guarded pipeline the saturation branches are
//! unreachable, since the counters stay equal to the grid counts they stand
//! for.

use vstd::prelude::*;

use crate::action::Action;
use crate::dispatch::Reducer;
use crate::state::{AppState, Cell, GameState, fresh_state_rel};

verus! {

/// Effect of revealing the in-bounds cell (x, y).
pub open spec fn reveal_rel(pre: AppState, x: int, y: int, post: AppState) -> bool {
    let g = pre.gview();
    let c = g[y][x];
    let c2 = Cell { revealed: true, ..c };
    &&& post.gview() == g.update(y, g[y].update(x, c2))
    &&& post.width == pre.width
    &&& post.height == pre.height
    &&& post.cursor_x == pre.cursor_x
    &&& post.cursor_y == pre.cursor_y
    &&& post.difficulty == pre.difficulty
    &&& post.mine_count == pre.mine_count
    &&& post.flags_placed == pre.flags_placed
    &&& post.total_safe == pre.total_safe
    &&& if c.mine {
        &&& post.game_state == GameState::Lost
        &&& post.cells_revealed == pre.cells_revealed
    } else {
        &&& post.cells_revealed as int == (if pre.cells_revealed < usize::MAX {
            pre.cells_revealed + 1
        } else {
            pre.cells_revealed as int
        })
        &&& post.game_state == (if post.cells_revealed == pre.total_safe {
            GameState::Won
        } else {
            pre.game_state
        })
    }
}

/// Effect of toggling the flag on the in-bounds cell (x, y).
pub open spec fn toggle_rel(pre: AppState, x: int, y: int, post: AppState) -> bool {
    let g = pre.gview();
    let c = g[y][x];
    let c2 = Cell { flagged: !c.flagged, ..c };
    &&& post.gview() == g.update(y, g[y].update(x, c2))
    &&& post.width == pre.width
    &&& post.height == pre.height
    &&& post.cursor_x == pre.cursor_x
    &&& post.cursor_y == pre.cursor_y
    &&& post.difficulty == pre.difficulty
    &&& post.mine_count == pre.mine_count
    &&& post.cells_revealed == pre.cells_revealed
    &&& post.game_state == pre.game_state
    &&& post.total_safe == pre.total_safe
    &&& post.flags_placed as int == (if c.flagged {
        if pre.flags_placed > 0 {
            pre.flags_placed - 1
        } else {
            0int
        }
    } else {
        if pre.flags_placed < usize::MAX {
            pre.flags_placed + 1
        } else {
            pre.flags_placed as int
        }
    })
}

/// What the reducer does for each action, exactly: grid-bound targets are
/// applied, out-of-bounds targets and the quit action change nothing, and a
/// new game admits any acceptable hazard placement.
pub open spec fn reducer_rel(pre: AppState, action: Action, post: AppState, changed: bool) -> bool {
    match action {
        Action::Reveal(x, y) => {
            if y < pre.grid@.len() && x < pre.grid@[y as int]@.len() {
                reveal_rel(pre, x as int, y as int, post) && changed
            } else {
                post == pre && !changed
            }
        },
        Action::ToggleFlag(x, y) => {
            if y < pre.grid@.len() && x < pre.grid@[y as int]@.len() {
                toggle_rel(pre, x as int, y as int, post) && changed
            } else {
                post == pre && !changed
            }
        },
        Action::CursorUp => {
            if pre.cursor_y > 0 {
                post == (AppState { cursor_y: (pre.cursor_y - 1) as usize, ..pre }) && changed
            } else {
                post == pre && !changed
            }
        },
        Action::CursorDown => {
            if pre.height > 0 && pre.cursor_y < pre.height - 1 {
                post == (AppState { cursor_y: (pre.cursor_y + 1) as usize, ..pre }) && changed
            } else {
                post == pre && !changed
            }
        },
        Action::CursorLeft => {
            if pre.cursor_x > 0 {
                post == (AppState { cursor_x: (pre.cursor_x - 1) as usize, ..pre }) && changed
            } else {
                post == pre && !changed
            }
        },
        Action::CursorRight => {
            if pre.width > 0 && pre.cursor_x < pre.width - 1 {
                post == (AppState { cursor_x: (pre.cursor_x + 1) as usize, ..pre }) && changed
            } else {
                post == pre && !changed
            }
        },
        Action::SetDifficulty(d) => fresh_state_rel(d, post) && changed,
        Action::NewGame => fresh_state_rel(pre.difficulty, post) && changed,
        Action::Quit => post == pre && !changed,
    }
}

/// Apply one action to the state in place; report whether anything changed.
pub fn reducer(state: &mut AppState, action: Action) -> (changed: bool)
    ensures
        reducer_rel(*old(state), action, *final(state), changed),
{
    match action {
        Action::Reveal(x, y) => {
            if y < state.grid.len() && x < state.grid[y].len() {
                let ghost old_g = old(state).gview();
                let c = state.grid[y][x];
                state.grid[y][x] = Cell { revealed: true, ..c };
                if c.mine {
                    state.game_state = GameState::Lost;
                } else {
                    if state.cells_revealed < usize::MAX {
                        state.cells_revealed = state.cells_revealed + 1;
                    }
                    if state.cells_revealed == state.total_safe {
                        state.game_state = GameState::Won;
                    }
                }
                proof {
                    let c2 = Cell { revealed: true, ..c };
                    assert(state.gview() =~~= old_g.update(
                        y as int,
                        old_g[y as int].update(x as int, c2),
                    ));
                }
                true
            } else {
                false
            }
        },
        Action::ToggleFlag(x, y) => {
            if y < state.grid.len() && x < state.grid[y].len() {
                let ghost old_g = old(state).gview();
                let c = state.grid[y][x];
                state.grid[y][x] = Cell { flagged: !c.flagged, ..c };
                if c.flagged {
                    if state.flags_placed > 0 {
                        state.flags_placed = state.flags_placed - 1;
                    } else {
                        state.flags_placed = 0;
                    }
                } else {
                    if state.flags_placed < usize::MAX {
                        state.flags_placed = state.flags_placed + 1;
                    }
                }
                proof {
                    let c2 = Cell { flagged: !c.flagged, ..c };
                    assert(state.gview() =~~= old_g.update(
                        y as int,
                        old_g[y as int].update(x as int, c2),
                    ));
                }
                true
            } else {
                false
            }
        },
        Action::CursorUp => {
            if state.cursor_y > 0 {
                state.cursor_y = state.cursor_y - 1;
                true
            } else {
                false
            }
        },
        Action::CursorDown => {
            if state.height > 0 && state.cursor_y < state.height - 1 {
                state.cursor_y = state.cursor_y + 1;
                true
            } else {
                false
            }
        },
        Action::CursorLeft => {
            if state.cursor_x > 0 {
                state.cursor_x = state.cursor_x - 1;
                true
            } else {
                false
            }
        },
        Action::CursorRight => {
            if state.width > 0 && state.cursor_x < state.width - 1 {
                state.cursor_x = state.cursor_x + 1;
                true
            } else {
                false
            }
        },
        Action::SetDifficulty(difficulty) => {
            *state = AppState::new(difficulty);
            true
        },
        Action::NewGame => {
            *state = AppState::new(state.difficulty);
            true
        },
        Action::Quit => false,
    }
}

/// The reducer as a pluggable value for the dispatch engine.
pub struct MinesweeperReducer;

impl Reducer<AppState, Action> for MinesweeperReducer {
    open spec fn apply_rel(pre: AppState, action: Action, post: AppState, changed: bool) -> bool {
        reducer_rel(pre, action, post, changed)
    }

    fn apply(&self, state: &mut AppState, action: Action) -> (changed: bool) {
        reducer(state, action)
    }
}

} // verus!
