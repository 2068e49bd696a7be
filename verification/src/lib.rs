//! A deterministic, single-threaded action-dispatch engine together with a
//! minesweeper domain built on it.
//!
//! The engine applies discrete transitions ("actions") to an owned state
//! through a reducer, intercepted by a middleware layer that may veto an
//! action before it reaches the reducer and may synthesize follow-up actions
//! after it has been applied. Injected actions run through an explicit FIFO
//! queue with per-item depth tags, bounded by [`dispatch::DispatchLimits`].
//!
//! The minesweeper domain supplies the state, reducer and middleware; the
//! middleware's flood-fill cascade is computed in one pass and replayed
//! through the queue without being recomputed per step.

use vstd::prelude::*;

pub mod action;
pub mod counter;
pub mod dispatch;
pub mod middleware;
pub mod reducer;
pub mod state;

verus! {

/// Grid widths and heights accepted by the library are small; this bound is
/// comfortably above every difficulty's dimensions and keeps products inside
/// `usize` on every platform.
pub open spec fn dims_fit(width: int, height: int) -> bool {
    0 < width <= 0xFFFF && 0 < height <= 0xFFFF
}

} // verus!
