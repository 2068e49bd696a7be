//! A minimal domain for the unmediated store: a single counter moved up and
//! down by two actions, with a quit action that changes nothing.

use vstd::prelude::*;

use crate::dispatch::{DispatchAction, Reducer};

verus! {

#[derive(Clone, Copy, Debug, PartialEq, Eq, Structural)]
pub struct CounterState {
    pub count: i32,
}

impl Default for CounterState {
    fn default() -> (r: Self)
        ensures
            r.count == 0,
    {
        CounterState { count: 0 }
    }
}

#[derive(Clone, Copy, Debug, PartialEq, Eq, Structural)]
pub enum CounterAction {
    Increment,
    Decrement,
    Quit,
}

impl DispatchAction for CounterAction {
    open spec fn is_quit_spec(self) -> bool {
        self == CounterAction::Quit
    }

    fn is_quit(&self) -> (b: bool) {
        match self {
            CounterAction::Quit => true,
            _ => false,
        }
    }
}

/// What the counter reducer does: increment and decrement move the count by
/// one, stopping at the ends of the `i32` range; quit changes nothing and
/// reports no change.
pub open spec fn counter_rel(
    pre: CounterState,
    action: CounterAction,
    post: CounterState,
    changed: bool,
) -> bool {
    match action {
        CounterAction::Increment => {
            &&& post.count == (if pre.count < i32::MAX {
                pre.count + 1
            } else {
                pre.count as int
            })
            &&& changed
        },
        CounterAction::Decrement => {
            &&& post.count == (if pre.count > i32::MIN {
                pre.count - 1
            } else {
                pre.count as int
            })
            &&& changed
        },
        CounterAction::Quit => post == pre && !changed,
    }
}

/// Apply one counter action in place; report whether anything changed.
pub fn counter_reducer(state: &mut CounterState, action: CounterAction) -> (changed: bool)
    ensures
        counter_rel(*old(state), action, *final(state), changed),
{
    match action {
        CounterAction::Increment => {
            if state.count < i32::MAX {
                state.count = state.count + 1;
            }
            true
        },
        CounterAction::Decrement => {
            if state.count > i32::MIN {
                state.count = state.count - 1;
            }
            true
        },
        CounterAction::Quit => false,
    }
}

/// The counter reducer as a pluggable value for the dispatch engine.
pub struct CounterReducer;

impl Reducer<CounterState, CounterAction> for CounterReducer {
    open spec fn apply_rel(
        pre: CounterState,
        action: CounterAction,
        post: CounterState,
        changed: bool,
    ) -> bool {
        counter_rel(pre, action, post, changed)
    }

    fn apply(&self, state: &mut CounterState, action: CounterAction) -> (changed: bool) {
        counter_reducer(state, action)
    }
}

} // verus!
