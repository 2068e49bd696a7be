use dispatch_core::action::Action;
use dispatch_core::dispatch::{
    DispatchError, DispatchLimits, DispatchOutcome, StoreWithMiddleware,
};
use dispatch_core::middleware::MinesweeperMiddleware;
use dispatch_core::reducer::MinesweeperReducer;
use dispatch_core::state::{count_adjacent_mines, AppState, Cell, Difficulty, GameState};

/// A 9-by-9 board with hazards at exactly the given cells, cursor centred,
/// counters fresh.
fn board_9x9(mines: &[(usize, usize)]) -> AppState {
    let mut grid = vec![vec![Cell::default(); 9]; 9];
    for &(x, y) in mines {
        grid[y][x].mine = true;
    }
    for y in 0..9 {
        for x in 0..9 {
            if !grid[y][x].mine {
                let a = count_adjacent_mines(&grid, x, y, 9, 9);
                grid[y][x].adjacent = a;
            }
        }
    }
    AppState {
        grid,
        width: 9,
        height: 9,
        cursor_x: 4,
        cursor_y: 4,
        game_state: GameState::Playing,
        difficulty: Difficulty::Beginner,
        mine_count: mines.len(),
        flags_placed: 0,
        cells_revealed: 0,
        total_safe: 81 - mines.len(),
    }
}

fn store_for(
    state: AppState,
) -> StoreWithMiddleware<AppState, MinesweeperReducer, MinesweeperMiddleware> {
    StoreWithMiddleware::new(state, MinesweeperReducer, MinesweeperMiddleware::default())
}

#[test]
fn cascade_reveals_whole_board_and_wins() {
    // One hazard at (0,0); (4,4) has no hazardous neighbour. Revealing it
    // must reveal all 80 safe cells in one call and win the game.
    let mut store = store_for(board_9x9(&[(0, 0)]));
    let r = store.try_dispatch(Action::Reveal(4, 4));
    assert_eq!(r, Ok(DispatchOutcome::Completed));
    let s = store.state();
    assert_eq!(s.cells_revealed, 80);
    assert_eq!(s.game_state, GameState::Won);
    for y in 0..9 {
        for x in 0..9 {
            if (x, y) == (0, 0) {
                assert!(!s.grid[y][x].revealed);
            } else {
                assert!(s.grid[y][x].revealed);
            }
        }
    }
}

#[test]
fn cascade_never_reveals_a_hazard_in_the_middle() {
    // A hazard in the middle of the board: the cascade flows around it and
    // reveals everything else.
    let mut store = store_for(board_9x9(&[(4, 4)]));
    let r = store.try_dispatch(Action::Reveal(0, 0));
    assert_eq!(r, Ok(DispatchOutcome::Completed));
    let s = store.state();
    assert!(!s.grid[4][4].revealed);
    assert_eq!(s.cells_revealed, 80);
    assert_eq!(s.game_state, GameState::Won);
}

#[test]
fn cascade_skips_flagged_cells() {
    let mut store = store_for(board_9x9(&[(0, 0)]));
    assert_eq!(store.try_dispatch(Action::ToggleFlag(8, 8)), Ok(DispatchOutcome::Completed));
    let r = store.try_dispatch(Action::Reveal(4, 4));
    assert_eq!(r, Ok(DispatchOutcome::Completed));
    let s = store.state();
    assert!(!s.grid[8][8].revealed);
    assert_eq!(s.cells_revealed, 79);
    assert_eq!(s.game_state, GameState::Playing);
}

#[test]
fn revealing_a_flagged_cell_is_cancelled() {
    let mut store = store_for(board_9x9(&[(0, 0)]));
    assert_eq!(store.try_dispatch(Action::ToggleFlag(4, 4)), Ok(DispatchOutcome::Completed));
    let r = store.try_dispatch(Action::Reveal(4, 4));
    assert_eq!(r, Ok(DispatchOutcome::Completed));
    let s = store.state();
    assert!(!s.grid[4][4].revealed);
    assert!(s.grid[4][4].flagged);
    assert_eq!(s.cells_revealed, 0);
    assert_eq!(s.flags_placed, 1);
    assert_eq!(s.game_state, GameState::Playing);
}

#[test]
fn revealing_a_revealed_cell_is_cancelled() {
    let mut store = store_for(board_9x9(&[(0, 0), (2, 0), (0, 2), (2, 2)]));
    assert_eq!(store.try_dispatch(Action::Reveal(1, 1)), Ok(DispatchOutcome::Completed));
    assert_eq!(store.state().cells_revealed, 1);
    // a second reveal of the same cell is dropped, not double counted
    assert_eq!(store.try_dispatch(Action::Reveal(1, 1)), Ok(DispatchOutcome::Completed));
    assert_eq!(store.state().cells_revealed, 1);
}

#[test]
fn losing_is_terminal_for_reveals() {
    let mut store = store_for(board_9x9(&[(0, 0)]));
    let r = store.try_dispatch(Action::Reveal(0, 0));
    assert_eq!(r, Ok(DispatchOutcome::Completed));
    assert_eq!(store.state().game_state, GameState::Lost);
    assert!(store.state().grid[0][0].revealed);
    // any further reveal is cancelled because the phase is no longer Playing
    let r2 = store.try_dispatch(Action::Reveal(4, 4));
    assert_eq!(r2, Ok(DispatchOutcome::Completed));
    let s = store.state();
    assert!(!s.grid[4][4].revealed);
    assert_eq!(s.cells_revealed, 0);
    assert_eq!(s.game_state, GameState::Lost);
}

#[test]
fn flagging_after_game_over_is_cancelled() {
    let mut store = store_for(board_9x9(&[(0, 0)]));
    store.try_dispatch(Action::Reveal(0, 0)).unwrap();
    assert_eq!(store.state().game_state, GameState::Lost);
    store.try_dispatch(Action::ToggleFlag(5, 5)).unwrap();
    assert!(!store.state().grid[5][5].flagged);
    assert_eq!(store.state().flags_placed, 0);
}

#[test]
fn exceeding_the_action_limit_fails() {
    let store = store_for(board_9x9(&[(0, 0)]));
    let mut store = store.with_dispatch_limits(DispatchLimits { max_depth: 4096, max_actions: 3 });
    // the cascade injects 80 reveals; only 3 actions may be applied
    let r = store.try_dispatch(Action::Reveal(4, 4));
    assert_eq!(r, Err(DispatchError::ActionLimitExceeded));
    // the first actions were applied before the limit tripped
    assert!(store.state().cells_revealed >= 1);
    assert!(store.state().cells_revealed <= 3);
}

#[test]
fn exceeding_the_depth_limit_fails() {
    let store = store_for(board_9x9(&[(0, 0)]));
    let mut store = store.with_dispatch_limits(DispatchLimits { max_depth: 0, max_actions: 1000 });
    let r = store.try_dispatch(Action::Reveal(4, 4));
    assert_eq!(r, Err(DispatchError::DepthLimitExceeded));
}

#[test]
fn counters_stay_within_bounds_across_a_game() {
    let mut store = store_for(board_9x9(&[(0, 0), (8, 0), (0, 8)]));
    let actions = [
        Action::ToggleFlag(0, 0),
        Action::Reveal(4, 4),
        Action::ToggleFlag(8, 0),
        Action::Reveal(1, 0),
        Action::CursorUp,
        Action::NewGame,
        Action::Reveal(3, 3),
    ];
    for a in actions {
        let _ = store.try_dispatch(a);
        let s = store.state();
        assert!(s.cells_revealed <= s.total_safe);
        assert!(s.flags_placed <= s.width * s.height);
        assert_eq!(s.cells_revealed == s.total_safe, s.game_state == GameState::Won);
    }
}

#[test]
fn cancelled_actions_do_not_count_toward_the_action_limit() {
    // with a budget of zero, an allowed action trips the limit at once,
    // while a cancelled one is dropped silently and the call completes
    let store = store_for(board_9x9(&[(0, 0)]));
    let mut store = store.with_dispatch_limits(DispatchLimits { max_depth: 4096, max_actions: 0 });
    assert_eq!(
        store.try_dispatch(Action::ToggleFlag(4, 4)),
        Err(DispatchError::ActionLimitExceeded)
    );
    let mut blocked = store_for(board_9x9(&[(0, 0)]));
    blocked.try_dispatch(Action::ToggleFlag(5, 5)).unwrap();
    let mut blocked =
        blocked.with_dispatch_limits(DispatchLimits { max_depth: 4096, max_actions: 0 });
    // revealing the flagged cell is cancelled: no budget is spent
    assert_eq!(blocked.try_dispatch(Action::Reveal(5, 5)), Ok(DispatchOutcome::Completed));
    // revealing a free cell needs budget and fails
    assert_eq!(
        blocked.try_dispatch(Action::Reveal(3, 3)),
        Err(DispatchError::ActionLimitExceeded)
    );
}
