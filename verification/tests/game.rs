use dispatch_core::action::Action;
use dispatch_core::reducer::reducer;
use dispatch_core::state::{count_adjacent_mines, neighbors, AppState, Cell, Difficulty, GameState};

#[test]
fn difficulty_params_values() {
    assert_eq!(Difficulty::Beginner.params(), (9, 9, 10));
    assert_eq!(Difficulty::Intermediate.params(), (16, 16, 40));
    assert_eq!(Difficulty::Expert.params(), (30, 16, 99));
}

#[test]
fn difficulty_labels() {
    assert_eq!(Difficulty::Beginner.label(), "Beginner");
    assert_eq!(Difficulty::Intermediate.label(), "Intermediate");
    assert_eq!(Difficulty::Expert.label(), "Expert");
}

#[test]
fn neighbors_center_has_eight() {
    let n = neighbors(4, 4, 9, 9);
    assert_eq!(n.len(), 8);
    assert!(n.contains(&(3, 3)));
    assert!(n.contains(&(5, 5)));
    assert!(n.contains(&(4, 3)));
    assert!(!n.contains(&(4, 4)));
}

#[test]
fn neighbors_corner_has_three() {
    let n = neighbors(0, 0, 9, 9);
    assert_eq!(n.len(), 3);
    assert!(n.contains(&(1, 0)));
    assert!(n.contains(&(0, 1)));
    assert!(n.contains(&(1, 1)));
}

#[test]
fn neighbors_edge_has_five() {
    let n = neighbors(4, 0, 9, 9);
    assert_eq!(n.len(), 5);
}

fn beginner_positions() -> Vec<(usize, usize)> {
    vec![
        (0, 0),
        (1, 0),
        (2, 0),
        (3, 0),
        (4, 0),
        (5, 0),
        (6, 0),
        (7, 0),
        (8, 0),
        (0, 1),
    ]
}

#[test]
fn from_mine_positions_places_exactly_the_given_mines() {
    let positions = beginner_positions();
    let s = AppState::from_mine_positions(Difficulty::Beginner, &positions);
    assert_eq!(s.width, 9);
    assert_eq!(s.height, 9);
    assert_eq!(s.mine_count, 10);
    assert_eq!(s.total_safe, 71);
    assert_eq!(s.cursor_x, 4);
    assert_eq!(s.cursor_y, 4);
    assert_eq!(s.flags_placed, 0);
    assert_eq!(s.cells_revealed, 0);
    assert_eq!(s.game_state, GameState::Playing);
    assert_eq!(s.difficulty, Difficulty::Beginner);
    let mut mines = 0;
    for y in 0..9 {
        for x in 0..9 {
            let c = &s.grid[y][x];
            assert!(!c.revealed);
            assert!(!c.flagged);
            if positions.contains(&(x, y)) {
                assert!(c.mine);
                mines += 1;
            } else {
                assert!(!c.mine);
            }
        }
    }
    assert_eq!(mines, 10);
}

#[test]
fn from_mine_positions_adjacency_counts() {
    let positions = beginner_positions();
    let s = AppState::from_mine_positions(Difficulty::Beginner, &positions);
    // (1, 1) touches the mines at (0,0), (1,0), (2,0) and (0,1).
    assert_eq!(s.grid[1][1].adjacent, 4);
    // (4, 1) touches (3,0), (4,0), (5,0).
    assert_eq!(s.grid[1][4].adjacent, 3);
    // (4, 3) touches no mine.
    assert_eq!(s.grid[3][4].adjacent, 0);
    // the counts agree with a direct recount
    for y in 0..9 {
        for x in 0..9 {
            if !s.grid[y][x].mine {
                assert_eq!(s.grid[y][x].adjacent, count_adjacent_mines(&s.grid, x, y, 9, 9));
            }
        }
    }
}

#[test]
fn new_board_is_fresh_with_the_difficulty_mine_count() {
    let s = AppState::new(Difficulty::Beginner);
    assert_eq!(s.width, 9);
    assert_eq!(s.height, 9);
    assert_eq!(s.mine_count, 10);
    assert_eq!(s.total_safe, 71);
    assert_eq!(s.game_state, GameState::Playing);
    let mut mines = 0;
    for y in 0..9 {
        for x in 0..9 {
            let c = &s.grid[y][x];
            assert!(!c.revealed);
            assert!(!c.flagged);
            if c.mine {
                mines += 1;
            } else {
                assert_eq!(c.adjacent, count_adjacent_mines(&s.grid, x, y, 9, 9));
            }
        }
    }
    assert_eq!(mines, 10);
}

#[test]
fn reducer_reveal_safe_cell_increments_count() {
    let mut s = AppState::from_mine_positions(Difficulty::Beginner, &beginner_positions());
    let changed = reducer(&mut s, Action::Reveal(4, 4));
    assert!(changed);
    assert!(s.grid[4][4].revealed);
    assert_eq!(s.cells_revealed, 1);
    assert_eq!(s.game_state, GameState::Playing);
}

#[test]
fn reducer_reveal_mine_loses() {
    let mut s = AppState::from_mine_positions(Difficulty::Beginner, &beginner_positions());
    let changed = reducer(&mut s, Action::Reveal(0, 0));
    assert!(changed);
    assert!(s.grid[0][0].revealed);
    assert_eq!(s.cells_revealed, 0);
    assert_eq!(s.game_state, GameState::Lost);
}

#[test]
fn reducer_reveal_out_of_bounds_is_noop() {
    let mut s = AppState::from_mine_positions(Difficulty::Beginner, &beginner_positions());
    let changed = reducer(&mut s, Action::Reveal(9, 9));
    assert!(!changed);
    assert_eq!(s.cells_revealed, 0);
    assert_eq!(s.game_state, GameState::Playing);
}

#[test]
fn reducer_toggle_flag_counts_up_and_down() {
    let mut s = AppState::from_mine_positions(Difficulty::Beginner, &beginner_positions());
    assert!(reducer(&mut s, Action::ToggleFlag(2, 2)));
    assert!(s.grid[2][2].flagged);
    assert_eq!(s.flags_placed, 1);
    assert!(reducer(&mut s, Action::ToggleFlag(2, 2)));
    assert!(!s.grid[2][2].flagged);
    assert_eq!(s.flags_placed, 0);
}

#[test]
fn reducer_cursor_moves_stop_at_edges() {
    let mut s = AppState::from_mine_positions(Difficulty::Beginner, &beginner_positions());
    s.cursor_x = 0;
    s.cursor_y = 0;
    assert!(!reducer(&mut s, Action::CursorLeft));
    assert!(!reducer(&mut s, Action::CursorUp));
    assert!(reducer(&mut s, Action::CursorRight));
    assert_eq!(s.cursor_x, 1);
    assert!(reducer(&mut s, Action::CursorDown));
    assert_eq!(s.cursor_y, 1);
    s.cursor_x = 8;
    s.cursor_y = 8;
    assert!(!reducer(&mut s, Action::CursorRight));
    assert!(!reducer(&mut s, Action::CursorDown));
}

#[test]
fn reducer_quit_changes_nothing() {
    let mut s = AppState::from_mine_positions(Difficulty::Beginner, &beginner_positions());
    assert!(!reducer(&mut s, Action::Quit));
    assert_eq!(s.cells_revealed, 0);
    assert_eq!(s.game_state, GameState::Playing);
}

#[test]
fn reducer_new_game_resets_the_board() {
    let mut s = AppState::from_mine_positions(Difficulty::Beginner, &beginner_positions());
    reducer(&mut s, Action::Reveal(4, 4));
    assert!(reducer(&mut s, Action::NewGame));
    assert_eq!(s.cells_revealed, 0);
    assert_eq!(s.game_state, GameState::Playing);
    assert_eq!(s.mine_count, 10);
}

#[test]
fn reducer_set_difficulty_switches_dimensions() {
    let mut s = AppState::from_mine_positions(Difficulty::Beginner, &beginner_positions());
    assert!(reducer(&mut s, Action::SetDifficulty(Difficulty::Expert)));
    assert_eq!(s.width, 30);
    assert_eq!(s.height, 16);
    assert_eq!(s.mine_count, 99);
    assert_eq!(s.total_safe, 381);
}

#[test]
fn cell_default_is_blank() {
    let c = Cell::default();
    assert!(!c.mine && !c.revealed && !c.flagged);
    assert_eq!(c.adjacent, 0);
}
