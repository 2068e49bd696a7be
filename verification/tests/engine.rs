use dispatch_core::action::Action;
use dispatch_core::counter::{counter_reducer, CounterAction, CounterReducer, CounterState};
use dispatch_core::dispatch::{DispatchOutcome, Store, StoreWithMiddleware};
use dispatch_core::middleware::MinesweeperMiddleware;
use dispatch_core::reducer::MinesweeperReducer;
use dispatch_core::state::{AppState, Difficulty, GameState};

#[test]
fn plain_store_dispatch_returns_the_changed_flag() {
    let mut store = Store::new(AppState::new(Difficulty::Beginner), MinesweeperReducer);
    assert!(store.dispatch(Action::CursorUp));
    assert!(!store.dispatch(Action::Quit));
    let s = store.state();
    assert_eq!(s.cursor_y, 3);
}

#[test]
fn plain_store_has_no_guards() {
    // the unmediated store runs the reducer directly: revealing a cell twice
    // is not cancelled there
    let mut store = Store::new(AppState::new(Difficulty::Beginner), MinesweeperReducer);
    assert!(store.dispatch(Action::ToggleFlag(0, 0)));
    assert!(store.dispatch(Action::ToggleFlag(0, 0)));
    assert_eq!(store.state().flags_placed, 0);
}

#[test]
fn state_accessor_reads_the_owned_state() {
    let store = StoreWithMiddleware::new(
        AppState::new(Difficulty::Intermediate),
        MinesweeperReducer,
        MinesweeperMiddleware::default(),
    );
    assert_eq!(store.state().width, 16);
    assert_eq!(store.state().game_state, GameState::Playing);
}

#[test]
fn quit_terminates_the_dispatch_call() {
    let mut store = StoreWithMiddleware::new(
        AppState::new(Difficulty::Beginner),
        MinesweeperReducer,
        MinesweeperMiddleware::default(),
    );
    let r = store.try_dispatch(Action::Quit);
    assert_eq!(r, Ok(DispatchOutcome::Terminated));
}

#[test]
fn dispatch_reports_termination_only_for_quit() {
    let mut store = StoreWithMiddleware::new(
        AppState::new(Difficulty::Beginner),
        MinesweeperReducer,
        MinesweeperMiddleware::default(),
    );
    assert!(store.dispatch(Action::CursorLeft));
    assert!(store.dispatch(Action::NewGame));
    assert!(!store.dispatch(Action::Quit));
}

#[test]
fn cursor_moves_through_the_pipeline() {
    let mut store = StoreWithMiddleware::new(
        AppState::new(Difficulty::Beginner),
        MinesweeperReducer,
        MinesweeperMiddleware::default(),
    );
    store.try_dispatch(Action::CursorRight).unwrap();
    store.try_dispatch(Action::CursorDown).unwrap();
    assert_eq!(store.state().cursor_x, 5);
    assert_eq!(store.state().cursor_y, 5);
}

#[test]
fn counter_store_counts_up_and_down() {
    let mut store = Store::new(CounterState::default(), CounterReducer);
    assert!(store.dispatch(CounterAction::Increment));
    assert!(store.dispatch(CounterAction::Increment));
    assert!(store.dispatch(CounterAction::Decrement));
    assert_eq!(store.state().count, 1);
    assert!(!store.dispatch(CounterAction::Quit));
    assert_eq!(store.state().count, 1);
}

#[test]
fn counter_stops_at_the_ends_of_the_range() {
    let mut s = CounterState { count: i32::MAX };
    assert!(counter_reducer(&mut s, CounterAction::Increment));
    assert_eq!(s.count, i32::MAX);
    let mut s = CounterState { count: i32::MIN };
    assert!(counter_reducer(&mut s, CounterAction::Decrement));
    assert_eq!(s.count, i32::MIN);
}
