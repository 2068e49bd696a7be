//! The minesweeper middleware: it enforces the game-rule guards in `before`
//! and drives the flood-fill cascade in `after`.
//!
//! When a reveal exposes a cell with no hazardous neighbours, the cascade is
//! computed once, in a single breadth-first pass, and injected as a flat
//! list of reveal actions; a counter recognises those injected reveals when
//! they come back through the pipeline, so the cascade is never recomputed
//! per step.

use vstd::prelude::*;

use crate::action::Action;
use crate::dispatch::{
    dispatch_rel, enqueued, is_trace, step_rel, terminal_rel, DispatchAction, DispatchConfig,
    DispatchError, DispatchLimits, DispatchOutcome, Middleware, Reducer,
};
use crate::reducer::MinesweeperReducer;
use crate::state::{
    adjacent8, grid_dims_ok, in_grid, lemma_neighbor_list_members, neighbor_list, neighbors,
    AppState, Cell, GameState,
};

verus! {

// ------------------------------------------------------------------
// The cascade region, described by paths.
// ------------------------------------------------------------------

/// A cell the cascade may reveal: not yet revealed, not flagged, and not
/// hazardous.
pub open spec fn frontier_cell(g: Seq<Seq<Cell>>, x: int, y: int) -> bool {
    &&& !g[y][x].revealed
    &&& !g[y][x].flagged
    &&& !g[y][x].mine
}

/// A cell the cascade expands through: revealable and with no hazardous
/// neighbour recorded.
pub open spec fn expand_cell(g: Seq<Seq<Cell>>, x: int, y: int) -> bool {
    &&& frontier_cell(g, x, y)
    &&& g[y][x].adjacent == 0
}

/// A chain of pairwise-adjacent in-grid cells from the origin, moving only
/// through expandable cells after the first.
pub open spec fn region_path(
    g: Seq<Seq<Cell>>,
    w: int,
    h: int,
    ox: int,
    oy: int,
    p: Seq<(int, int)>,
) -> bool {
    &&& p.len() >= 1
    &&& p[0] == (ox, oy)
    &&& forall|i: int| 0 <= i < p.len() ==> in_grid(w, h, (#[trigger] p[i]).0, p[i].1)
    &&& forall|i: int|
        1 <= i < p.len() ==> adjacent8(p[i - 1].0, p[i - 1].1, (#[trigger] p[i]).0, p[i].1)
    &&& forall|i: int| 1 <= i < p.len() ==> expand_cell(g, (#[trigger] p[i]).0, p[i].1)
}

/// The connected region the cascade grows through: the origin plus every
/// expandable cell joined to it by a chain of expandable cells.
pub open spec fn in_region(g: Seq<Seq<Cell>>, w: int, h: int, ox: int, oy: int, x: int, y: int) -> bool {
    exists|p: Seq<(int, int)>| #[trigger] region_path(g, w, h, ox, oy, p) && p.last() == (x, y)
}

/// The cells a cascade from (ox, oy) reveals: exactly the revealable cells,
/// other than the origin itself, adjacent to some cell of the region — the
/// region's expandable cells together with their revealable border. No
/// hazardous cell qualifies.
pub open spec fn in_cascade(g: Seq<Seq<Cell>>, w: int, h: int, ox: int, oy: int, x: int, y: int) -> bool {
    &&& in_grid(w, h, x, y)
    &&& !(x == ox && y == oy)
    &&& frontier_cell(g, x, y)
    &&& exists|zx: int, zy: int|
        #[trigger] in_region(g, w, h, ox, oy, zx, zy) && adjacent8(zx, zy, x, y)
}

/// What the computed cascade list satisfies: it holds a reveal action for
/// every cell of the cascade, nothing else, and no duplicates.
pub open spec fn cascade_post(
    g: Seq<Seq<Cell>>,
    w: int,
    h: int,
    ox: int,
    oy: int,
    out: Seq<Action>,
) -> bool {
    &&& forall|i: int|
        0 <= i < out.len() ==> ((#[trigger] out[i]) matches Action::Reveal(nx, ny) && in_cascade(
            g,
            w,
            h,
            ox,
            oy,
            nx as int,
            ny as int,
        ))
    &&& forall|x: int, y: int|
        #[trigger] in_cascade(g, w, h, ox, oy, x, y) ==> out.contains(
            Action::Reveal(x as usize, y as usize),
        )
    &&& forall|i: int, j: int| 0 <= i < j < out.len() ==> out[i] != out[j]
}

// ------------------------------------------------------------------
// Bookkeeping for the traversal.
// ------------------------------------------------------------------

/// The visit mark of cell (x, y) in a row-major bitmap of width w.
pub open spec fn vis_at(visited: Seq<bool>, w: int, x: int, y: int) -> bool {
    visited[y * w + x]
}

pub open spec fn count_true(s: Seq<bool>) -> int
    decreases s.len(),
{
    if s.len() == 0 {
        0
    } else {
        count_true(s.drop_last()) + (if s.last() {
            1int
        } else {
            0int
        })
    }
}

proof fn lemma_count_true_bounds(s: Seq<bool>)
    ensures
        0 <= count_true(s) <= s.len(),
    decreases s.len(),
{
    if s.len() > 0 {
        lemma_count_true_bounds(s.drop_last());
    }
}

proof fn lemma_count_true_update(s: Seq<bool>, i: int)
    requires
        0 <= i < s.len(),
        !s[i],
    ensures
        count_true(s.update(i, true)) == count_true(s) + 1,
    decreases s.len(),
{
    let s2 = s.update(i, true);
    if i == s.len() - 1 {
        assert(s2.drop_last() =~= s.drop_last());
    } else {
        assert(s2.drop_last() =~= s.drop_last().update(i, true));
        assert(s2.last() == s.last());
        lemma_count_true_update(s.drop_last(), i);
    }
}

/// Row-major indices are unique per cell.
proof fn lemma_index_injective(w: int, h: int, x1: int, y1: int, x2: int, y2: int)
    requires
        in_grid(w, h, x1, y1),
        in_grid(w, h, x2, y2),
        y1 * w + x1 == y2 * w + x2,
    ensures
        x1 == x2 && y1 == y2,
{
    assert(x1 == x2 && y1 == y2) by (nonlinear_arith)
        requires
            0 <= x1 < w,
            0 <= x2 < w,
            0 <= y1 < h,
            0 <= y2 < h,
            y1 * w + x1 == y2 * w + x2,
    ;
}

/// Invariant of the breadth-first traversal.
pub open spec fn bfs_inv(
    g: Seq<Seq<Cell>>,
    w: int,
    h: int,
    ox: int,
    oy: int,
    visited: Seq<bool>,
    queue: Seq<(usize, usize)>,
    head: int,
    out: Seq<Action>,
) -> bool {
    &&& 0 <= head <= queue.len()
    &&& visited.len() == w * h
    &&& in_grid(w, h, ox, oy)
    &&& vis_at(visited, w, ox, oy)
    // everything queued is a visited region cell: the origin or an
    // expandable cell.
    &&& forall|k: int|
        0 <= k < queue.len() ==> {
            let qx = (#[trigger] queue[k]).0 as int;
            let qy = queue[k].1 as int;
            &&& in_grid(w, h, qx, qy)
            &&& vis_at(visited, w, qx, qy)
            &&& in_region(g, w, h, ox, oy, qx, qy)
            &&& ((qx == ox && qy == oy) || expand_cell(g, qx, qy))
        }
    // everything visited is the origin or adjacent to a region cell.
    &&& forall|x: int, y: int|
        in_grid(w, h, x, y) && #[trigger] vis_at(visited, w, x, y) ==> ((x == ox && y == oy)
            || exists|zx: int, zy: int|
            #[trigger] in_region(g, w, h, ox, oy, zx, zy) && adjacent8(zx, zy, x, y))
    // every visited revealable cell other than the origin is in the output.
    &&& forall|x: int, y: int|
        in_grid(w, h, x, y) && #[trigger] vis_at(visited, w, x, y) && frontier_cell(g, x, y) && !(
        x == ox && y == oy) ==> out.contains(Action::Reveal(x as usize, y as usize))
    // the output holds only cascade cells, each marked visited.
    &&& forall|i: int|
        0 <= i < out.len() ==> ((#[trigger] out[i]) matches Action::Reveal(nx, ny) && in_cascade(
            g,
            w,
            h,
            ox,
            oy,
            nx as int,
            ny as int,
        ) && vis_at(visited, w, nx as int, ny as int))
    &&& forall|i: int, j: int| 0 <= i < j < out.len() ==> out[i] != out[j]
    // every neighbour of a processed queue item is visited.
    &&& forall|k: int, x: int, y: int|
        #![trigger queue[k], vis_at(visited, w, x, y)]
        0 <= k < head && in_grid(w, h, x, y) && adjacent8(queue[k].0 as int, queue[k].1 as int, x, y)
            ==> vis_at(visited, w, x, y)
    // every visited region cell is somewhere in the queue.
    &&& forall|x: int, y: int|
        in_grid(w, h, x, y) && #[trigger] vis_at(visited, w, x, y) && ((x == ox && y == oy)
            || expand_cell(g, x, y)) ==> exists|k: int|
            0 <= k < queue.len() && #[trigger] queue[k] == (x as usize, y as usize)
}

/// After the queue is exhausted, every region cell has been visited: walk
/// the path, each of its cells was queued and processed, so its successor is
/// visited.
proof fn lemma_region_visited(
    g: Seq<Seq<Cell>>,
    w: int,
    h: int,
    ox: int,
    oy: int,
    visited: Seq<bool>,
    queue: Seq<(usize, usize)>,
    out: Seq<Action>,
    p: Seq<(int, int)>,
)
    requires
        bfs_inv(g, w, h, ox, oy, visited, queue, queue.len() as int, out),
        region_path(g, w, h, ox, oy, p),
        0 <= w <= 0xFFFF,
        0 <= h <= 0xFFFF,
    ensures
        vis_at(visited, w, p.last().0, p.last().1),
    decreases p.len(),
{
    if p.len() == 1 {
        assert(p.last() == (ox, oy));
    } else {
        let pp = p.drop_last();
        assert(region_path(g, w, h, ox, oy, pp)) by {
            assert(forall|i: int|
                0 <= i < pp.len() ==> (#[trigger] pp[i]) == p[i]);
        }
        lemma_region_visited(g, w, h, ox, oy, visited, queue, out, pp);
        let z = pp.last();
        assert(z == p[p.len() - 2]);
        assert(in_grid(w, h, z.0, z.1));
        assert((z.0 == ox && z.1 == oy) || expand_cell(g, z.0, z.1)) by {
            if p.len() - 2 >= 1 {
                assert(expand_cell(g, (#[trigger] p[p.len() - 2]).0, p[p.len() - 2].1));
            } else {
                assert(p[0] == (ox, oy));
            }
        }
        let zu = (z.0 as usize, z.1 as usize);
        assert(zu.0 as int == z.0 && zu.1 as int == z.1);
        assert(exists|k: int| 0 <= k < queue.len() && #[trigger] queue[k] == zu);
        let k = choose|k: int| 0 <= k < queue.len() && #[trigger] queue[k] == zu;
        let t = p.last();
        assert(adjacent8(queue[k].0 as int, queue[k].1 as int, t.0, t.1)) by {
            assert(adjacent8(p[p.len() - 2].0, p[p.len() - 2].1, (#[trigger] p[
                p.len() - 1
            ]).0, p[p.len() - 1].1));
        }
        assert(vis_at(visited, w, t.0, t.1));
    }
}

} // verus!

verus! {

/// Marking one in-grid cell changes no other cell's visit mark.
proof fn lemma_mark_cell(
    w: int,
    h: int,
    visited_old: Seq<bool>,
    visited_new: Seq<bool>,
    nx: usize,
    ny: usize,
)
    requires
        0 < w,
        0 < h,
        visited_old.len() == w * h,
        in_grid(w, h, nx as int, ny as int),
        !vis_at(visited_old, w, nx as int, ny as int),
        visited_new == visited_old.update(ny as int * w + nx as int, true),
    ensures
        forall|x: int, y: int|
            in_grid(w, h, x, y) ==> vis_at(visited_new, w, x, y) == (vis_at(visited_old, w, x, y)
                || (x == nx as int && y == ny as int)),
        count_true(visited_new) == count_true(visited_old) + 1,
        visited_new.len() == visited_old.len(),
{
    let idx = ny as int * w + nx as int;
    assert(0 <= idx < w * h) by (nonlinear_arith)
        requires
            0 <= nx as int && (nx as int) < w,
            0 <= ny as int && (ny as int) < h,
            idx == ny as int * w + nx as int,
    ;
    lemma_count_true_update(visited_old, idx);
    assert forall|x: int, y: int| in_grid(w, h, x, y) implies vis_at(visited_new, w, x, y) == (
    vis_at(visited_old, w, x, y) || (x == nx as int && y == ny as int)) by {
        if y * w + x == idx {
            lemma_index_injective(w, h, x, y, nx as int, ny as int);
        } else {
            assert(0 <= y * w + x < w * h) by (nonlinear_arith)
                requires
                    0 <= x < w,
                    0 <= y < h,
            ;
            assert(visited_new[y * w + x] == visited_old[y * w + x]);
        }
    }
}

/// The output-list conjuncts of the invariant survive one neighbour step.
proof fn lemma_step_out(
    g: Seq<Seq<Cell>>,
    w: int,
    h: int,
    ox: int,
    oy: int,
    visited_old: Seq<bool>,
    visited_new: Seq<bool>,
    out_old: Seq<Action>,
    out_new: Seq<Action>,
    cx: usize,
    cy: usize,
    nx: usize,
    ny: usize,
)
    requires
        in_grid(w, h, ox, oy),
        in_grid(w, h, nx as int, ny as int),
        adjacent8(cx as int, cy as int, nx as int, ny as int),
        in_region(g, w, h, ox, oy, cx as int, cy as int),
        !vis_at(visited_old, w, nx as int, ny as int),
        vis_at(visited_old, w, ox, oy),
        forall|x: int, y: int|
            in_grid(w, h, x, y) ==> vis_at(visited_new, w, x, y) == (vis_at(visited_old, w, x, y)
                || (x == nx as int && y == ny as int)),
        forall|x: int, y: int|
            in_grid(w, h, x, y) && #[trigger] vis_at(visited_old, w, x, y) && frontier_cell(
                g,
                x,
                y,
            ) && !(x == ox && y == oy) ==> out_old.contains(Action::Reveal(x as usize, y as usize)),
        forall|i: int|
            0 <= i < out_old.len() ==> ((#[trigger] out_old[i]) matches Action::Reveal(ax, ay)
                && in_cascade(g, w, h, ox, oy, ax as int, ay as int) && vis_at(
                visited_old,
                w,
                ax as int,
                ay as int,
            )),
        forall|i: int, j: int| 0 <= i < j < out_old.len() ==> out_old[i] != out_old[j],
        out_new == (if frontier_cell(g, nx as int, ny as int) {
            out_old.push(Action::Reveal(nx, ny))
        } else {
            out_old
        }),
    ensures
        forall|x: int, y: int|
            in_grid(w, h, x, y) && #[trigger] vis_at(visited_new, w, x, y) && frontier_cell(
                g,
                x,
                y,
            ) && !(x == ox && y == oy) ==> out_new.contains(Action::Reveal(x as usize, y as usize)),
        forall|i: int|
            0 <= i < out_new.len() ==> ((#[trigger] out_new[i]) matches Action::Reveal(ax, ay)
                && in_cascade(g, w, h, ox, oy, ax as int, ay as int) && vis_at(
                visited_new,
                w,
                ax as int,
                ay as int,
            )),
        forall|i: int, j: int| 0 <= i < j < out_new.len() ==> out_new[i] != out_new[j],
{
    assert(!(nx as int == ox && ny as int == oy));
    if frontier_cell(g, nx as int, ny as int) {
        assert(in_cascade(g, w, h, ox, oy, nx as int, ny as int));
        assert(out_new.contains(Action::Reveal(nx, ny))) by {
            assert(out_new[out_new.len() - 1] == Action::Reveal(nx, ny));
        }
        assert forall|x: int, y: int|
            in_grid(w, h, x, y) && #[trigger] vis_at(visited_new, w, x, y) && frontier_cell(
                g,
                x,
                y,
            ) && !(x == ox && y == oy) implies out_new.contains(
            Action::Reveal(x as usize, y as usize),
        ) by {
            if x == nx as int && y == ny as int {
                assert(Action::Reveal(x as usize, y as usize) == Action::Reveal(nx, ny));
            } else {
                assert(vis_at(visited_old, w, x, y));
                assert(out_old.contains(Action::Reveal(x as usize, y as usize)));
                let i = choose|i: int|
                    0 <= i < out_old.len() && out_old[i] == Action::Reveal(x as usize, y as usize);
                assert(out_new[i] == out_old[i]);
            }
        }
        assert forall|i: int, j: int| 0 <= i < j < out_new.len() implies out_new[i]
            != out_new[j] by {
            if j < out_old.len() {
                assert(out_old[i] != out_old[j]);
            } else {
                assert(out_new[j] == Action::Reveal(nx, ny));
                assert((out_old[i] matches Action::Reveal(ax, ay) && vis_at(
                    visited_old,
                    w,
                    ax as int,
                    ay as int,
                )));
            }
        }
    } else {
        assert forall|x: int, y: int|
            in_grid(w, h, x, y) && #[trigger] vis_at(visited_new, w, x, y) && frontier_cell(
                g,
                x,
                y,
            ) && !(x == ox && y == oy) implies out_new.contains(
            Action::Reveal(x as usize, y as usize),
        ) by {
            assert(vis_at(visited_old, w, x, y));
        }
    }
}

/// The queue and visited-soundness conjuncts of the invariant survive one
/// neighbour step.
proof fn lemma_step_queue(
    g: Seq<Seq<Cell>>,
    w: int,
    h: int,
    ox: int,
    oy: int,
    visited_old: Seq<bool>,
    visited_new: Seq<bool>,
    queue_old: Seq<(usize, usize)>,
    queue_new: Seq<(usize, usize)>,
    hd: int,
    cx: usize,
    cy: usize,
    nx: usize,
    ny: usize,
)
    requires
        in_grid(w, h, ox, oy),
        in_grid(w, h, nx as int, ny as int),
        adjacent8(cx as int, cy as int, nx as int, ny as int),
        0 <= hd < queue_old.len(),
        queue_old[hd] == (cx, cy),
        !vis_at(visited_old, w, nx as int, ny as int),
        vis_at(visited_old, w, ox, oy),
        forall|x: int, y: int|
            in_grid(w, h, x, y) ==> vis_at(visited_new, w, x, y) == (vis_at(visited_old, w, x, y)
                || (x == nx as int && y == ny as int)),
        forall|k: int|
            0 <= k < queue_old.len() ==> {
                let qx = (#[trigger] queue_old[k]).0 as int;
                let qy = queue_old[k].1 as int;
                &&& in_grid(w, h, qx, qy)
                &&& vis_at(visited_old, w, qx, qy)
                &&& in_region(g, w, h, ox, oy, qx, qy)
                &&& ((qx == ox && qy == oy) || expand_cell(g, qx, qy))
            },
        forall|x: int, y: int|
            in_grid(w, h, x, y) && #[trigger] vis_at(visited_old, w, x, y) ==> ((x == ox && y
                == oy) || exists|zx: int, zy: int|
                #[trigger] in_region(g, w, h, ox, oy, zx, zy) && adjacent8(zx, zy, x, y)),
        forall|k: int, x: int, y: int|
            #![trigger queue_old[k], vis_at(visited_old, w, x, y)]
            0 <= k < hd && in_grid(w, h, x, y) && adjacent8(
                queue_old[k].0 as int,
                queue_old[k].1 as int,
                x,
                y,
            ) ==> vis_at(visited_old, w, x, y),
        forall|x: int, y: int|
            in_grid(w, h, x, y) && #[trigger] vis_at(visited_old, w, x, y) && ((x == ox && y == oy)
                || expand_cell(g, x, y)) ==> exists|k: int|
                0 <= k < queue_old.len() && #[trigger] queue_old[k] == (x as usize, y as usize),
        queue_new == (if expand_cell(g, nx as int, ny as int) {
            queue_old.push((nx, ny))
        } else {
            queue_old
        }),
    ensures
        forall|k: int|
            0 <= k < queue_new.len() ==> {
                let qx = (#[trigger] queue_new[k]).0 as int;
                let qy = queue_new[k].1 as int;
                &&& in_grid(w, h, qx, qy)
                &&& vis_at(visited_new, w, qx, qy)
                &&& in_region(g, w, h, ox, oy, qx, qy)
                &&& ((qx == ox && qy == oy) || expand_cell(g, qx, qy))
            },
        forall|x: int, y: int|
            in_grid(w, h, x, y) && #[trigger] vis_at(visited_new, w, x, y) ==> ((x == ox && y
                == oy) || exists|zx: int, zy: int|
                #[trigger] in_region(g, w, h, ox, oy, zx, zy) && adjacent8(zx, zy, x, y)),
        forall|k: int, x: int, y: int|
            #![trigger queue_new[k], vis_at(visited_new, w, x, y)]
            0 <= k < hd && in_grid(w, h, x, y) && adjacent8(
                queue_new[k].0 as int,
                queue_new[k].1 as int,
                x,
                y,
            ) ==> vis_at(visited_new, w, x, y),
        forall|x: int, y: int|
            in_grid(w, h, x, y) && #[trigger] vis_at(visited_new, w, x, y) && ((x == ox && y == oy)
                || expand_cell(g, x, y)) ==> exists|k: int|
                0 <= k < queue_new.len() && #[trigger] queue_new[k] == (x as usize, y as usize),
        vis_at(visited_new, w, nx as int, ny as int),
        expand_cell(g, nx as int, ny as int) ==> in_region(g, w, h, ox, oy, nx as int, ny as int),
{
    assert(in_region(g, w, h, ox, oy, cx as int, cy as int));
    assert(!(nx as int == ox && ny as int == oy));
    if expand_cell(g, nx as int, ny as int) {
        let p = choose|p: Seq<(int, int)>|
            #[trigger] region_path(g, w, h, ox, oy, p) && p.last() == (cx as int, cy as int);
        let p2 = p.push((nx as int, ny as int));
        assert(p2.last() == (nx as int, ny as int));
        assert(forall|i: int| 0 <= i < p.len() ==> (#[trigger] p2[i]) == p[i]);
        assert(region_path(g, w, h, ox, oy, p2));
        assert(in_region(g, w, h, ox, oy, nx as int, ny as int));
        assert(queue_new[queue_new.len() - 1] == (nx, ny));
    }
    assert forall|x: int, y: int|
        in_grid(w, h, x, y) && #[trigger] vis_at(visited_new, w, x, y) && ((x == ox && y == oy)
            || expand_cell(g, x, y)) implies exists|k: int|
        0 <= k < queue_new.len() && #[trigger] queue_new[k] == (x as usize, y as usize) by {
        if x == nx as int && y == ny as int {
            assert(queue_new[queue_new.len() - 1] == (x as usize, y as usize));
        } else {
            assert(vis_at(visited_old, w, x, y));
            let k = choose|k: int|
                0 <= k < queue_old.len() && #[trigger] queue_old[k] == (x as usize, y as usize);
            assert(queue_new[k] == (x as usize, y as usize));
        }
    }
    assert forall|k: int, x: int, y: int|
        #![trigger queue_new[k], vis_at(visited_new, w, x, y)]
        0 <= k < hd && in_grid(w, h, x, y) && adjacent8(
            queue_new[k].0 as int,
            queue_new[k].1 as int,
            x,
            y,
        ) implies vis_at(visited_new, w, x, y) by {
        assert(queue_new[k] == queue_old[k]);
        assert(vis_at(visited_old, w, x, y));
    }
}

/// Handle one neighbour (nx, ny) of the dequeued cell (cx, cy): mark it
/// visited if it is fresh, and then record it for revealing and, when it is
/// expandable, queue it for further expansion.
fn process_neighbor(
    state: &AppState,
    visited: &mut Vec<bool>,
    queue: &mut Vec<(usize, usize)>,
    out: &mut Vec<Action>,
    ox: usize,
    oy: usize,
    cx: usize,
    cy: usize,
    nx: usize,
    ny: usize,
    head: usize,
    total: usize,
)
    requires
        grid_dims_ok(state.gview(), state.width as int, state.height as int),
        crate::dims_fit(state.width as int, state.height as int),
        total as int == state.width as int * state.height as int,
        bfs_inv(
            state.gview(),
            state.width as int,
            state.height as int,
            ox as int,
            oy as int,
            old(visited)@,
            old(queue)@,
            head as int - 1,
            old(out)@,
        ),
        1 <= head <= old(queue)@.len(),
        old(queue)@[head as int - 1] == (cx, cy),
        in_grid(state.width as int, state.height as int, nx as int, ny as int),
        adjacent8(cx as int, cy as int, nx as int, ny as int),
    ensures
        bfs_inv(
            state.gview(),
            state.width as int,
            state.height as int,
            ox as int,
            oy as int,
            final(visited)@,
            final(queue)@,
            head as int - 1,
            final(out)@,
        ),
        vis_at(final(visited)@, state.width as int, nx as int, ny as int),
        forall|x: int, y: int|
            in_grid(state.width as int, state.height as int, x, y) && vis_at(
                old(visited)@,
                state.width as int,
                x,
                y,
            ) ==> vis_at(final(visited)@, state.width as int, x, y),
        final(queue)@.len() >= old(queue)@.len(),
        forall|k: int| 0 <= k < old(queue)@.len() ==> (#[trigger] final(queue)@[k]) == old(
            queue,
        )@[k],
        9 * (total as int - count_true(final(visited)@)) + final(queue)@.len() <= 9 * (total
            as int - count_true(old(visited)@)) + old(queue)@.len(),
{
    let w = state.width;
    let h = state.height;
    let ghost g = state.gview();
    proof {
        assert((ny as int * w as int + nx as int) < h as int * w as int) by (nonlinear_arith)
            requires
                0 <= nx as int && (nx as int) < w as int,
                0 <= ny as int && (ny as int) < h as int,
        ;
        assert(h as int * w as int == w as int * h as int) by (nonlinear_arith);
        lemma_count_true_bounds(visited@);
    }
    let idx = ny * w + nx;
    let visited_here = visited[idx];
    if visited_here {
        return ;
    }
    let ghost visited_old = visited@;
    let ghost queue_old = queue@;
    let ghost out_old = out@;
    visited[idx] = true;
    proof {
        assert(visited@ == visited_old.update(ny as int * w as int + nx as int, true));
    }
    proof {
        assert(state.grid@[ny as int]@ == g[ny as int]);
    }
    let row: &Vec<Cell> = &state.grid[ny];
    let cell = row[nx];
    proof {
        assert(cell == g[ny as int][nx as int]);
    }
    if !cell.revealed && !cell.flagged && !cell.mine {
        out.push(Action::Reveal(nx, ny));
        if cell.adjacent == 0 {
            queue.push((nx, ny));
        }
    }
    proof {
        lemma_count_true_bounds(visited_old);
        lemma_mark_cell(w as int, h as int, visited_old, visited@, nx, ny);
        assert(in_region(g, w as int, h as int, ox as int, oy as int, cx as int, cy as int));
        assert(out@ == (if frontier_cell(g, nx as int, ny as int) {
            out_old.push(Action::Reveal(nx, ny))
        } else {
            out_old
        }));
        assert(queue@ == (if expand_cell(g, nx as int, ny as int) {
            queue_old.push((nx, ny))
        } else {
            queue_old
        }));
        lemma_step_out(
            g,
            w as int,
            h as int,
            ox as int,
            oy as int,
            visited_old,
            visited@,
            out_old,
            out@,
            cx,
            cy,
            nx,
            ny,
        );
        lemma_step_queue(
            g,
            w as int,
            h as int,
            ox as int,
            oy as int,
            visited_old,
            visited@,
            queue_old,
            queue@,
            head as int - 1,
            cx,
            cy,
            nx,
            ny,
        );
        assert(bfs_inv(
            g,
            w as int,
            h as int,
            ox as int,
            oy as int,
            visited@,
            queue@,
            head as int - 1,
            out@,
        ));
    }
}

/// Compute the full cascade from the just-revealed zero-adjacency cell at
/// (ox, oy): one breadth-first pass over the grid, producing the flat,
/// duplicate-free list of reveal actions for exactly the cascade cells.
#[verifier::rlimit(100)]
pub fn cascade_reveals(state: &AppState, ox: usize, oy: usize) -> (out: Vec<Action>)
    requires
        grid_dims_ok(state.gview(), state.width as int, state.height as int),
        crate::dims_fit(state.width as int, state.height as int),
        ox < state.width,
        oy < state.height,
    ensures
        cascade_post(
            state.gview(),
            state.width as int,
            state.height as int,
            ox as int,
            oy as int,
            out@,
        ),
{
    let w = state.width;
    let h = state.height;
    let ghost g = state.gview();
    proof {
        assert(w as int * h as int <= 0xFFFF * 0xFFFF) by (nonlinear_arith)
            requires
                0 < w as int && w as int <= 0xFFFF,
                0 < h as int && h as int <= 0xFFFF,
        ;
    }
    let total = w * h;
    let mut visited: Vec<bool> = Vec::new();
    while visited.len() < total
        invariant
            visited@.len() <= total,
            forall|i: int| 0 <= i < visited@.len() ==> !(#[trigger] visited@[i]),
        decreases total - visited@.len(),
    {
        visited.push(false);
    }
    proof {
        assert((oy as int * w as int + ox as int) < h as int * w as int) by (nonlinear_arith)
            requires
                0 <= ox as int && (ox as int) < w as int,
                0 <= oy as int && (oy as int) < h as int,
        ;
        assert(h as int * w as int == w as int * h as int) by (nonlinear_arith);
    }
    let idx0 = oy * w + ox;
    let ghost visited0 = visited@;
    visited[idx0] = true;
    let mut queue: Vec<(usize, usize)> = Vec::new();
    queue.push((ox, oy));
    let mut out: Vec<Action> = Vec::new();
    let mut head: usize = 0;
    proof {
        let p0 = seq![(ox as int, oy as int)];
        assert(region_path(g, w as int, h as int, ox as int, oy as int, p0));
        assert(p0.last() == (ox as int, oy as int));
        assert(in_region(g, w as int, h as int, ox as int, oy as int, ox as int, oy as int));
        assert forall|x: int, y: int|
            in_grid(w as int, h as int, x, y) && #[trigger] vis_at(visited@, w as int, x, y)
                implies (x == ox as int && y == oy as int) by {
            if !(x == ox as int && y == oy as int) {
                if y * w as int + x == oy as int * w as int + ox as int {
                    lemma_index_injective(w as int, h as int, x, y, ox as int, oy as int);
                }
                assert(y * w as int + x != oy as int * w as int + ox as int);
                assert(0 <= y * w as int + x < total as int) by (nonlinear_arith)
                    requires
                        0 <= x < w as int,
                        0 <= y < h as int,
                        total as int == w as int * h as int,
                ;
                assert(!visited0[y * w as int + x]);
                assert(false);
            }
        }
        assert(queue@[0] == (ox, oy));
        assert(bfs_inv(g, w as int, h as int, ox as int, oy as int, visited@, queue@, 0, out@));
        lemma_count_true_bounds(visited@);
    }
    while head < queue.len()
        invariant
            bfs_inv(g, w as int, h as int, ox as int, oy as int, visited@, queue@, head as int, out@),
            g == state.gview(),
            w == state.width,
            h == state.height,
            grid_dims_ok(g, w as int, h as int),
            crate::dims_fit(w as int, h as int),
            total as int == w as int * h as int,
        decreases 9 * (total as int - count_true(visited@)) + queue@.len() - head as int,
    {
        let (cx, cy) = queue[head];
        head = head + 1;
        let ghost m_entry = 9 * (total as int - count_true(visited@)) + queue@.len() - head as int;
        let nbrs = neighbors(cx, cy, w, h);
        proof {
            lemma_neighbor_list_members(cx as int, cy as int, w as int, h as int);
            lemma_count_true_bounds(visited@);
        }
        let mut j: usize = 0;
        while j < nbrs.len()
            invariant
                bfs_inv(
                    g,
                    w as int,
                    h as int,
                    ox as int,
                    oy as int,
                    visited@,
                    queue@,
                    head as int - 1,
                    out@,
                ),
                1 <= head,
                head as int <= queue@.len(),
                queue@[head as int - 1] == (cx, cy),
                nbrs@ == neighbor_list(cx as int, cy as int, w as int, h as int),
                forall|p: (usize, usize)| #[trigger]
                    neighbor_list(cx as int, cy as int, w as int, h as int).contains(p) <==> (
                    in_grid(w as int, h as int, p.0 as int, p.1 as int) && adjacent8(
                        cx as int,
                        cy as int,
                        p.0 as int,
                        p.1 as int,
                    )),
                j <= nbrs@.len(),
                forall|jj: int|
                    0 <= jj < j as int ==> vis_at(
                        visited@,
                        w as int,
                        (#[trigger] nbrs@[jj]).0 as int,
                        nbrs@[jj].1 as int,
                    ),
                9 * (total as int - count_true(visited@)) + queue@.len() - head as int <= m_entry,
                g == state.gview(),
                w == state.width,
                h == state.height,
                grid_dims_ok(g, w as int, h as int),
                crate::dims_fit(w as int, h as int),
                total as int == w as int * h as int,
            decreases nbrs@.len() - j as int,
        {
            let (nx, ny) = nbrs[j];
            proof {
                assert(nbrs@.contains(nbrs@[j as int]));
                assert(in_grid(w as int, h as int, nx as int, ny as int));
                assert(adjacent8(cx as int, cy as int, nx as int, ny as int));
            }
            process_neighbor(state, &mut visited, &mut queue, &mut out, ox, oy, cx, cy, nx, ny, head, total);
            j = j + 1;
        }
        proof {
            // the popped item's neighbours are now all visited
            assert forall|k: int, x: int, y: int|
                #![trigger queue@[k], vis_at(visited@, w as int, x, y)]
                0 <= k < head as int && in_grid(w as int, h as int, x, y) && adjacent8(
                    queue@[k].0 as int,
                    queue@[k].1 as int,
                    x,
                    y,
                ) implies vis_at(visited@, w as int, x, y) by {
                if k == head as int - 1 {
                    let pu = (x as usize, y as usize);
                    assert(pu.0 as int == x && pu.1 as int == y);
                    assert(neighbor_list(cx as int, cy as int, w as int, h as int).contains(pu));
                    let jj = choose|jj: int| 0 <= jj < nbrs@.len() && nbrs@[jj] == pu;
                    assert(vis_at(visited@, w as int, nbrs@[jj].0 as int, nbrs@[jj].1 as int));
                }
            }
            assert(bfs_inv(
                g,
                w as int,
                h as int,
                ox as int,
                oy as int,
                visited@,
                queue@,
                head as int,
                out@,
            ));
            lemma_count_true_bounds(visited@);
        }
    }
    proof {
        assert forall|x: int, y: int|
            #[trigger] in_cascade(g, w as int, h as int, ox as int, oy as int, x, y)
                implies out@.contains(Action::Reveal(x as usize, y as usize)) by {
            let (zx, zy) = choose|zx: int, zy: int|
                #[trigger] in_region(g, w as int, h as int, ox as int, oy as int, zx, zy)
                    && adjacent8(zx, zy, x, y);
            let p = choose|p: Seq<(int, int)>|
                #[trigger] region_path(g, w as int, h as int, ox as int, oy as int, p) && p.last()
                    == (zx, zy);
            lemma_region_visited(g, w as int, h as int, ox as int, oy as int, visited@, queue@,
                out@, p);
            assert(vis_at(visited@, w as int, zx, zy));
            assert((zx == ox as int && zy == oy as int) || expand_cell(g, zx, zy)) by {
                if p.len() >= 2 {
                    assert(expand_cell(g, (#[trigger] p[p.len() - 1]).0, p[p.len() - 1].1));
                } else {
                    assert(p[0] == (ox as int, oy as int));
                }
            }
            let zu = (zx as usize, zy as usize);
            assert(zu.0 as int == zx && zu.1 as int == zy);
            let k = choose|k: int| 0 <= k < queue@.len() && #[trigger] queue@[k] == zu;
            assert(vis_at(visited@, w as int, x, y));
        }
    }
    out
}

} // verus!

verus! {

/// Middleware that enforces the game rules and drives flood-fill reveals.
///
/// `before` cancels reveals of already-revealed, flagged or out-of-game
/// cells, and flag toggles of revealed cells or after game over. `after`
/// computes the flood fill once when a hazard-free zero-adjacency cell was
/// revealed and injects a flat list of reveal actions; the two bookkeeping
/// fields recognise those injected reveals so no cascade is recomputed for
/// them.
pub struct MinesweeperMiddleware {
    /// Injected reveal actions of the in-flight cascade not yet replayed.
    pub pending_flood_reveals: usize,
    /// Whether the action being processed is one of those injected reveals.
    pub in_injected_reveal: bool,
}

impl Default for MinesweeperMiddleware {
    fn default() -> (r: Self)
        ensures
            r.pending_flood_reveals == 0,
            !r.in_injected_reveal,
    {
        MinesweeperMiddleware { pending_flood_reveals: 0, in_injected_reveal: false }
    }
}

/// The game-rule guard: which actions the middleware lets through in a
/// given state.
pub open spec fn action_allowed(a: Action, s: AppState) -> bool {
    match a {
        Action::Reveal(x, y) => {
            &&& y < s.grid@.len()
            &&& x < s.grid@[y as int]@.len()
            &&& s.game_state == GameState::Playing
            &&& !s.gview()[y as int][x as int].revealed
            &&& !s.gview()[y as int][x as int].flagged
        },
        Action::ToggleFlag(x, y) => {
            &&& y < s.grid@.len()
            &&& x < s.grid@[y as int]@.len()
            &&& s.game_state == GameState::Playing
            &&& !s.gview()[y as int][x as int].revealed
        },
        _ => true,
    }
}

/// How `before` updates the middleware's bookkeeping: a reveal arriving
/// while cascade reveals are pending is one of them.
pub open spec fn before_update(pre: MinesweeperMiddleware, a: Action) -> MinesweeperMiddleware {
    if (a matches Action::Reveal(_, _)) && pre.pending_flood_reveals > 0 {
        MinesweeperMiddleware {
            pending_flood_reveals: (pre.pending_flood_reveals - 1) as usize,
            in_injected_reveal: true,
        }
    } else {
        MinesweeperMiddleware {
            pending_flood_reveals: pre.pending_flood_reveals,
            in_injected_reveal: false,
        }
    }
}

/// When a fresh reveal starts a cascade: the grid has its declared shape and
/// the revealed cell is an in-bounds, hazard-free, zero-adjacency cell of a
/// game still in play.
pub open spec fn cascade_trigger(s: AppState, x: int, y: int) -> bool {
    &&& crate::dims_fit(s.width as int, s.height as int)
    &&& grid_dims_ok(s.gview(), s.width as int, s.height as int)
    &&& 0 <= x < s.width as int
    &&& 0 <= y < s.height as int
    &&& s.game_state == GameState::Playing
    &&& !s.gview()[y][x].mine
    &&& s.gview()[y][x].adjacent == 0
}

/// Runtime check for the shape part of [`cascade_trigger`].
fn grid_dims_check(state: &AppState) -> (b: bool)
    ensures
        b == (crate::dims_fit(state.width as int, state.height as int) && grid_dims_ok(
            state.gview(),
            state.width as int,
            state.height as int,
        )),
{
    if state.width == 0 || state.width > 0xFFFF || state.height == 0 || state.height > 0xFFFF {
        return false;
    }
    if state.grid.len() != state.height {
        return false;
    }
    let mut y: usize = 0;
    while y < state.grid.len()
        invariant
            y <= state.grid@.len(),
            state.grid@.len() == state.height,
            forall|yy: int|
                0 <= yy < y as int ==> (#[trigger] state.grid@[yy])@.len() == state.width,
        decreases state.grid@.len() - y as int,
    {
        if state.grid[y].len() != state.width {
            proof {
                assert(state.gview()[y as int] == state.grid@[y as int]@);
            }
            return false;
        }
        y = y + 1;
    }
    proof {
        assert(state.gview().len() == state.grid@.len());
        assert forall|yy: int|
            0 <= yy < state.height as int implies (#[trigger] state.gview()[yy]).len()
            == state.width as int by {
            assert(state.gview()[yy] == state.grid@[yy]@);
        }
    }
    true
}

impl Middleware<AppState, Action> for MinesweeperMiddleware {
    open spec fn before_rel(
        pre: Self,
        action: Action,
        state: AppState,
        post: Self,
        allow: bool,
    ) -> bool {
        &&& post == before_update(pre, action)
        &&& allow == action_allowed(action, state)
    }

    open spec fn after_rel(
        pre: Self,
        action: Action,
        changed: bool,
        state: AppState,
        post: Self,
        injected: Seq<Action>,
    ) -> bool {
        if pre.in_injected_reveal {
            &&& post == (MinesweeperMiddleware { in_injected_reveal: false, ..pre })
            &&& injected == Seq::<Action>::empty()
        } else {
            match action {
                Action::Reveal(x, y) => {
                    if cascade_trigger(state, x as int, y as int) {
                        &&& cascade_post(
                            state.gview(),
                            state.width as int,
                            state.height as int,
                            x as int,
                            y as int,
                            injected,
                        )
                        &&& post == (MinesweeperMiddleware {
                            pending_flood_reveals: injected.len() as usize,
                            in_injected_reveal: false,
                        })
                    } else {
                        post == pre && injected == Seq::<Action>::empty()
                    }
                },
                _ => post == pre && injected == Seq::<Action>::empty(),
            }
        }
    }

    fn before(&mut self, action: &Action, state: &AppState) -> (allow: bool) {
        self.in_injected_reveal = false;
        let is_reveal = match *action {
            Action::Reveal(_, _) => true,
            _ => false,
        };
        if is_reveal && self.pending_flood_reveals > 0 {
            self.pending_flood_reveals = self.pending_flood_reveals - 1;
            self.in_injected_reveal = true;
        }
        match *action {
            Action::Reveal(x, y) => {
                if y < state.grid.len() && x < state.grid[y].len() {
                    let c = state.grid[y][x];
                    state.game_state == GameState::Playing && !c.revealed && !c.flagged
                } else {
                    false
                }
            },
            Action::ToggleFlag(x, y) => {
                if y < state.grid.len() && x < state.grid[y].len() {
                    let c = state.grid[y][x];
                    state.game_state == GameState::Playing && !c.revealed
                } else {
                    false
                }
            },
            _ => true,
        }
    }

    fn after(&mut self, action: &Action, state_changed: bool, state: &AppState) -> (injected: Vec<
        Action,
    >) {
        if self.in_injected_reveal {
            self.in_injected_reveal = false;
            return Vec::new();
        }
        match *action {
            Action::Reveal(x, y) => {
                if !grid_dims_check(state) {
                    return Vec::new();
                }
                if x >= state.width || y >= state.height {
                    return Vec::new();
                }
                proof {
                    assert(state.grid@.len() == state.gview().len());
                    assert(state.grid@[y as int]@ == state.gview()[y as int]);
                }
                let c = state.grid[y][x];
                if !(state.game_state == GameState::Playing) || c.mine || c.adjacent != 0 {
                    return Vec::new();
                }
                let reveals = cascade_reveals(state, x, y);
                self.pending_flood_reveals = reveals.len();
                reveals
            },
            _ => Vec::new(),
        }
    }
}

} // verus!

verus! {

/// One allowed, applied action keeps the state well-formed: the counters
/// track their grid counts, and the game is won exactly when every safe cell
/// is revealed.
pub proof fn lemma_allowed_step_preserves_wf(
    pre: AppState,
    a: Action,
    post: AppState,
    changed: bool,
)
    requires
        crate::state::state_wf(pre),
        action_allowed(a, pre),
        crate::reducer::reducer_rel(pre, a, post, changed),
    ensures
        crate::state::state_wf(post),
{
    let g = pre.gview();
    let w = pre.width as int;
    let h = pre.height as int;
    assert(h * w == w * h) by (nonlinear_arith);
    assert(w * h <= 0xFFFF * 0xFFFF) by (nonlinear_arith)
        requires
            0 < w && w <= 0xFFFF,
            0 < h && h <= 0xFFFF,
    ;
    match a {
        Action::Reveal(xu, yu) => {
            let x = xu as int;
            let y = yu as int;
            assert(g[y].len() == w);
            let c = g[y][x];
            let c2 = Cell { revealed: true, ..c };
            let row2 = g[y].update(x, c2);
            let g2 = g.update(y, row2);
            assert(post.gview() == g2);
            assert(forall|yy: int| 0 <= yy < h ==> (#[trigger] g2[yy]).len() == w);
            lemma_update_counts(g, x, y, c2);
            assert(crate::state::revealed_safe_in(g) <= h * w) by {
                crate::state::lemma_grid_count_bounds(
                    g,
                    |cc: Cell| crate::state::cell_is_revealed_safe(cc),
                    w,
                );
            }
            if c.mine {
                assert(crate::state::revealed_safe_in(g2) == crate::state::revealed_safe_in(g));
                assert(post.game_state == GameState::Lost);
                assert(pre.game_state == GameState::Playing);
                assert(pre.cells_revealed != pre.total_safe);
            } else {
                assert(crate::state::revealed_safe_in(g2) == crate::state::revealed_safe_in(g) + 1);
                assert(pre.cells_revealed < usize::MAX);
                assert(post.cells_revealed == pre.cells_revealed + 1);
            }
            assert(crate::state::mines_in(g2) == crate::state::mines_in(g));
            assert(crate::state::flagged_in(g2) == crate::state::flagged_in(g));
        },
        Action::ToggleFlag(xu, yu) => {
            let x = xu as int;
            let y = yu as int;
            assert(g[y].len() == w);
            let c = g[y][x];
            let c2 = Cell { flagged: !c.flagged, ..c };
            let row2 = g[y].update(x, c2);
            let g2 = g.update(y, row2);
            assert(post.gview() == g2);
            assert(forall|yy: int| 0 <= yy < h ==> (#[trigger] g2[yy]).len() == w);
            lemma_update_counts(g, x, y, c2);
            if c.flagged {
                assert(crate::state::flagged_in(g) >= 1) by {
                    crate::state::lemma_grid_count_pos(
                        g,
                        |cc: Cell| crate::state::cell_is_flagged(cc),
                        x,
                        y,
                    );
                }
                assert(crate::state::flagged_in(g2) == crate::state::flagged_in(g) - 1);
            } else {
                assert(crate::state::flagged_in(g) <= h * w) by {
                    crate::state::lemma_grid_count_bounds(
                        g,
                        |cc: Cell| crate::state::cell_is_flagged(cc),
                        w,
                    );
                }
                assert(pre.flags_placed < usize::MAX);
                assert(crate::state::flagged_in(g2) == crate::state::flagged_in(g) + 1);
            }
            assert(crate::state::mines_in(g2) == crate::state::mines_in(g));
            assert(crate::state::revealed_safe_in(g2) == crate::state::revealed_safe_in(g));
        },
        Action::CursorUp => {},
        Action::CursorDown => {},
        Action::CursorLeft => {},
        Action::CursorRight => {},
        Action::SetDifficulty(_) => {},
        Action::NewGame => {},
        Action::Quit => {},
    }
}

/// Updating one cell moves each grid count by that cell's own change.
proof fn lemma_update_counts(g: Seq<Seq<Cell>>, x: int, y: int, c2: Cell)
    requires
        0 <= y < g.len(),
        0 <= x < g[y].len(),
    ensures
        ({
            let g2 = g.update(y, g[y].update(x, c2));
            let c = g[y][x];
            &&& crate::state::mines_in(g2) == crate::state::mines_in(g) - (if c.mine {
                1int
            } else {
                0int
            }) + (if c2.mine {
                1int
            } else {
                0int
            })
            &&& crate::state::revealed_safe_in(g2) == crate::state::revealed_safe_in(g) - (if (
                c.revealed && !c.mine
            ) {
                1int
            } else {
                0int
            }) + (if (c2.revealed && !c2.mine) {
                1int
            } else {
                0int
            })
            &&& crate::state::flagged_in(g2) == crate::state::flagged_in(g) - (if c.flagged {
                1int
            } else {
                0int
            }) + (if c2.flagged {
                1int
            } else {
                0int
            })
        }),
{
    let row2 = g[y].update(x, c2);
    crate::state::lemma_grid_count_update(g, |c: Cell| crate::state::cell_is_mine(c), y, row2);
    crate::state::lemma_row_count_update(g[y], |c: Cell| crate::state::cell_is_mine(c), x, c2);
    crate::state::lemma_grid_count_update(
        g,
        |c: Cell| crate::state::cell_is_revealed_safe(c),
        y,
        row2,
    );
    crate::state::lemma_row_count_update(
        g[y],
        |c: Cell| crate::state::cell_is_revealed_safe(c),
        x,
        c2,
    );
    crate::state::lemma_grid_count_update(g, |c: Cell| crate::state::cell_is_flagged(c), y, row2);
    crate::state::lemma_row_count_update(g[y], |c: Cell| crate::state::cell_is_flagged(c), x, c2);
}

} // verus!

verus! {

/// Along any run of the mediated dispatch pipeline that starts from a
/// well-formed state, every configuration's state is well-formed: `before`
/// lets only guarded actions through, and guarded reducer steps preserve
/// well-formedness.
pub proof fn lemma_trace_preserves_wf(
    limits: DispatchLimits,
    tr: Seq<DispatchConfig<AppState, MinesweeperMiddleware, Action>>,
    i: int,
)
    requires
        is_trace::<AppState, Action, MinesweeperReducer, MinesweeperMiddleware>(limits, tr),
        0 <= i < tr.len(),
        crate::state::state_wf(tr[0].state),
    ensures
        crate::state::state_wf(tr[i].state),
    decreases i,
{
    if i > 0 {
        lemma_trace_preserves_wf(limits, tr, i - 1);
        assert(step_rel::<AppState, Action, MinesweeperReducer, MinesweeperMiddleware>(
            limits,
            tr[i - 1],
            tr[i],
        ));
        if tr[i].state != tr[i - 1].state {
            let (mid, changed, injected) = choose|
                mid: MinesweeperMiddleware,
                changed: bool,
                injected: Seq<Action>,
            |
                {
                    &&& MinesweeperMiddleware::before_rel(
                        tr[i - 1].middleware,
                        tr[i - 1].queue[0].0,
                        tr[i - 1].state,
                        mid,
                        true,
                    )
                    &&& tr[i - 1].processed + 1 <= limits.max_actions
                    &&& MinesweeperReducer::apply_rel(
                        tr[i - 1].state,
                        tr[i - 1].queue[0].0,
                        tr[i].state,
                        changed,
                    )
                    &&& #[trigger] MinesweeperMiddleware::after_rel(
                        mid,
                        tr[i - 1].queue[0].0,
                        changed,
                        tr[i].state,
                        tr[i].middleware,
                        injected,
                    )
                    &&& !(injected.len() > 0 && tr[i - 1].queue[0].1 + 1 > limits.max_depth)
                    &&& !tr[i - 1].queue[0].0.is_quit_spec()
                    &&& enqueued(tr[i - 1].queue, injected, tr[i - 1].queue[0].1, tr[i].queue)
                    &&& tr[i].processed == tr[i - 1].processed + 1
                };
            lemma_allowed_step_preserves_wf(
                tr[i - 1].state,
                tr[i - 1].queue[0].0,
                tr[i].state,
                changed,
            );
        }
    }
}

/// Every state a dispatch call can leave behind, starting from a well-formed
/// state, is well-formed: its revealed counter never exceeds the number of
/// safe cells, equality holds exactly in the won phase, and its flag counter
/// never exceeds the grid size.
pub proof fn lemma_dispatch_preserves_wf(
    limits: DispatchLimits,
    s0: AppState,
    m0: MinesweeperMiddleware,
    action: Action,
    s1: AppState,
    m1: MinesweeperMiddleware,
    r: Result<DispatchOutcome, DispatchError>,
)
    requires
        dispatch_rel::<AppState, Action, MinesweeperReducer, MinesweeperMiddleware>(
            limits,
            s0,
            m0,
            action,
            s1,
            m1,
            r,
        ),
        crate::state::state_wf(s0),
    ensures
        crate::state::state_wf(s1),
        s1.cells_revealed <= s1.total_safe,
        s1.cells_revealed == s1.total_safe <==> s1.game_state == GameState::Won,
        s1.flags_placed <= s1.width * s1.height,
{
    let c0 = crate::dispatch::init_config::<AppState, MinesweeperMiddleware, Action>(
        s0,
        m0,
        action,
    );
    let tr = choose|tr: Seq<DispatchConfig<AppState, MinesweeperMiddleware, Action>>|
        {
            &&& tr.len() >= 1
            &&& tr[0] == c0
            &&& #[trigger] is_trace::<AppState, Action, MinesweeperReducer, MinesweeperMiddleware>(
                limits,
                tr,
            )
            &&& terminal_rel::<AppState, Action, MinesweeperReducer, MinesweeperMiddleware>(
                limits,
                tr.last(),
                s1,
                m1,
                r,
            )
        };
    lemma_trace_preserves_wf(limits, tr, tr.len() - 1);
    let c = tr.last();
    assert(crate::state::state_wf(c.state));
    if s1 != c.state {
        let (mid, changed, injected) = choose|
            mid: MinesweeperMiddleware,
            changed: bool,
            injected: Seq<Action>,
        |
            {
                &&& MinesweeperMiddleware::before_rel(c.middleware, c.queue[0].0, c.state, mid, true)
                &&& MinesweeperReducer::apply_rel(c.state, c.queue[0].0, s1, changed)
                &&& #[trigger] MinesweeperMiddleware::after_rel(
                    mid,
                    c.queue[0].0,
                    changed,
                    s1,
                    m1,
                    injected,
                )
                &&& if injected.len() > 0 && c.queue[0].1 + 1 > limits.max_depth {
                    r == Err::<DispatchOutcome, DispatchError>(DispatchError::DepthLimitExceeded)
                } else {
                    c.queue[0].0.is_quit_spec() && r == Ok::<DispatchOutcome, DispatchError>(
                        DispatchOutcome::Terminated,
                    )
                }
            };
        lemma_allowed_step_preserves_wf(c.state, c.queue[0].0, s1, changed);
    }
    crate::state::lemma_wf_bounds(s1);
}

} // verus!

verus! {

/// Law: dispatching an action that the game-rule guard rejects never changes
/// the state — the call completes, the reducer and the `after` hook never
/// run, and only the middleware's own bookkeeping moves.
pub proof fn lemma_rejected_action_changes_nothing(
    limits: DispatchLimits,
    s0: AppState,
    m0: MinesweeperMiddleware,
    action: Action,
    s1: AppState,
    m1: MinesweeperMiddleware,
    r: Result<DispatchOutcome, DispatchError>,
)
    requires
        dispatch_rel::<AppState, Action, MinesweeperReducer, MinesweeperMiddleware>(
            limits,
            s0,
            m0,
            action,
            s1,
            m1,
            r,
        ),
        !action_allowed(action, s0),
    ensures
        s1 == s0,
        r == Ok::<DispatchOutcome, DispatchError>(DispatchOutcome::Completed),
        m1 == before_update(m0, action),
{
    assert forall|post: MinesweeperMiddleware, allow: bool| #[trigger]
        MinesweeperMiddleware::before_rel(m0, action, s0, post, allow) implies !allow by {}
    crate::dispatch::lemma_cancelled_dispatch_unchanged::<
        AppState,
        Action,
        MinesweeperReducer,
        MinesweeperMiddleware,
    >(limits, s0, m0, action, s1, m1, r);
}

} // verus!

verus! {

/// The won and lost phases are terminal: an allowed, applied action either
/// resets the whole board (a new game or a difficulty change) or leaves the
/// phase untouched — reveals and flag toggles are only allowed while
/// playing.
pub proof fn lemma_game_over_is_terminal(pre: AppState, a: Action, post: AppState, changed: bool)
    requires
        pre.game_state != GameState::Playing,
        action_allowed(a, pre),
        crate::reducer::reducer_rel(pre, a, post, changed),
        !(a matches Action::NewGame),
        !(a matches Action::SetDifficulty(_)),
    ensures
        post.game_state == pre.game_state,
{
}

} // verus!
