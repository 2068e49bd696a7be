//! Minesweeper domain state: the grid of cells, the game phase, and the
//! scalar counters, together with the well-formedness invariant that the
//! guarded dispatch pipeline preserves.

use rand::seq::SliceRandom;
use vstd::prelude::*;
use vstd::seq_lib::*;

verus! {

#[derive(Clone, Copy, Debug, PartialEq, Eq, Structural)]
pub enum Difficulty {
    Beginner,
    Intermediate,
    Expert,
}

impl Difficulty {
    /// Grid width, grid height and hazard count for this difficulty.
    pub open spec fn params_spec(self) -> (int, int, int) {
        match self {
            Difficulty::Beginner => (9, 9, 10),
            Difficulty::Intermediate => (16, 16, 40),
            Difficulty::Expert => (30, 16, 99),
        }
    }

    pub fn params(self) -> (r: (usize, usize, usize))
        ensures
            r.0 as int == self.params_spec().0,
            r.1 as int == self.params_spec().1,
            r.2 as int == self.params_spec().2,
    {
        match self {
            Difficulty::Beginner => (9, 9, 10),
            Difficulty::Intermediate => (16, 16, 40),
            Difficulty::Expert => (30, 16, 99),
        }
    }

    pub open spec fn label_spec(self) -> Seq<char> {
        match self {
            Difficulty::Beginner => "Beginner"@,
            Difficulty::Intermediate => "Intermediate"@,
            Difficulty::Expert => "Expert"@,
        }
    }

    pub fn label(self) -> (r: &'static str)
        ensures
            r@ == self.label_spec(),
    {
        match self {
            Difficulty::Beginner => "Beginner",
            Difficulty::Intermediate => "Intermediate",
            Difficulty::Expert => "Expert",
        }
    }
}

#[derive(Clone, Copy, Debug, PartialEq, Eq, Structural)]
pub struct Cell {
    pub mine: bool,
    pub revealed: bool,
    pub flagged: bool,
    pub adjacent: u8,
}

impl Default for Cell {
    fn default() -> (r: Self)
        ensures
            r == (Cell { mine: false, revealed: false, flagged: false, adjacent: 0u8 }),
    {
        Cell { mine: false, revealed: false, flagged: false, adjacent: 0 }
    }
}

#[derive(Clone, Copy, Debug, PartialEq, Eq, Structural)]
pub enum GameState {
    Playing,
    Won,
    Lost,
}

pub struct AppState {
    pub grid: Vec<Vec<Cell>>,
    pub width: usize,
    pub height: usize,
    pub cursor_x: usize,
    pub cursor_y: usize,
    pub game_state: GameState,
    pub difficulty: Difficulty,
    pub mine_count: usize,
    pub flags_placed: usize,
    pub cells_revealed: usize,
    pub total_safe: usize,
}

/// The grid as a mathematical sequence of rows.
pub open spec fn grid_view(grid: Vec<Vec<Cell>>) -> Seq<Seq<Cell>> {
    grid@.map_values(|r: Vec<Cell>| r@)
}

impl AppState {
    pub open spec fn gview(self) -> Seq<Seq<Cell>> {
        grid_view(self.grid)
    }
}

pub open spec fn grid_dims_ok(g: Seq<Seq<Cell>>, width: int, height: int) -> bool {
    &&& g.len() == height
    &&& forall|y: int| 0 <= y < height ==> (#[trigger] g[y]).len() == width
}

pub open spec fn in_grid(w: int, h: int, x: int, y: int) -> bool {
    0 <= x < w && 0 <= y < h
}

// ------------------------------------------------------------------
// Counting cells of the grid that satisfy a predicate.
// ------------------------------------------------------------------

pub open spec fn row_count(row: Seq<Cell>, f: spec_fn(Cell) -> bool) -> int
    decreases row.len(),
{
    if row.len() == 0 {
        0
    } else {
        row_count(row.drop_last(), f) + (if f(row.last()) {
            1int
        } else {
            0int
        })
    }
}

pub open spec fn grid_count(g: Seq<Seq<Cell>>, f: spec_fn(Cell) -> bool) -> int
    decreases g.len(),
{
    if g.len() == 0 {
        0
    } else {
        grid_count(g.drop_last(), f) + row_count(g.last(), f)
    }
}

pub open spec fn cell_is_mine(c: Cell) -> bool {
    c.mine
}

pub open spec fn cell_is_safe(c: Cell) -> bool {
    !c.mine
}

pub open spec fn cell_is_revealed_safe(c: Cell) -> bool {
    c.revealed && !c.mine
}

pub open spec fn cell_is_flagged(c: Cell) -> bool {
    c.flagged
}

pub open spec fn mines_in(g: Seq<Seq<Cell>>) -> int {
    grid_count(g, |c: Cell| cell_is_mine(c))
}

pub open spec fn revealed_safe_in(g: Seq<Seq<Cell>>) -> int {
    grid_count(g, |c: Cell| cell_is_revealed_safe(c))
}

pub open spec fn flagged_in(g: Seq<Seq<Cell>>) -> int {
    grid_count(g, |c: Cell| cell_is_flagged(c))
}

pub proof fn lemma_row_count_bounds(row: Seq<Cell>, f: spec_fn(Cell) -> bool)
    ensures
        0 <= row_count(row, f) <= row.len(),
    decreases row.len(),
{
    if row.len() > 0 {
        lemma_row_count_bounds(row.drop_last(), f);
    }
}

pub proof fn lemma_grid_count_bounds(g: Seq<Seq<Cell>>, f: spec_fn(Cell) -> bool, w: int)
    requires
        forall|y: int| 0 <= y < g.len() ==> (#[trigger] g[y]).len() == w,
    ensures
        0 <= grid_count(g, f) <= g.len() * w,
    decreases g.len(),
{
    if g.len() == 0 {
    } else {
        let gp = g.drop_last();
        assert(forall|y: int| 0 <= y < gp.len() ==> (#[trigger] gp[y]).len() == w);
        lemma_grid_count_bounds(gp, f, w);
        lemma_row_count_bounds(g.last(), f);
        assert((g.len() - 1) * w + w == g.len() * w) by (nonlinear_arith);
    }
}

pub proof fn lemma_row_count_update(row: Seq<Cell>, f: spec_fn(Cell) -> bool, i: int, c: Cell)
    requires
        0 <= i < row.len(),
    ensures
        row_count(row.update(i, c), f) == row_count(row, f) - (if f(row[i]) {
            1int
        } else {
            0int
        }) + (if f(c) {
            1int
        } else {
            0int
        }),
    decreases row.len(),
{
    let r2 = row.update(i, c);
    if i == row.len() - 1 {
        assert(r2.drop_last() =~= row.drop_last());
    } else {
        assert(r2.drop_last() =~= row.drop_last().update(i, c));
        assert(r2.last() == row.last());
        lemma_row_count_update(row.drop_last(), f, i, c);
    }
}

pub proof fn lemma_grid_count_update(
    g: Seq<Seq<Cell>>,
    f: spec_fn(Cell) -> bool,
    y: int,
    row: Seq<Cell>,
)
    requires
        0 <= y < g.len(),
    ensures
        grid_count(g.update(y, row), f) == grid_count(g, f) - row_count(g[y], f) + row_count(
            row,
            f,
        ),
    decreases g.len(),
{
    let g2 = g.update(y, row);
    if y == g.len() - 1 {
        assert(g2.drop_last() =~= g.drop_last());
    } else {
        assert(g2.drop_last() =~= g.drop_last().update(y, row));
        assert(g2.last() == g.last());
        lemma_grid_count_update(g.drop_last(), f, y, row);
    }
}

/// A cell satisfying `f` makes the count positive.
pub proof fn lemma_row_count_pos(row: Seq<Cell>, f: spec_fn(Cell) -> bool, j: int)
    requires
        0 <= j < row.len(),
        f(row[j]),
    ensures
        row_count(row, f) >= 1,
    decreases row.len(),
{
    lemma_row_count_bounds(row.drop_last(), f);
    if j < row.len() - 1 {
        lemma_row_count_pos(row.drop_last(), f, j);
    }
}

pub proof fn lemma_grid_count_pos(g: Seq<Seq<Cell>>, f: spec_fn(Cell) -> bool, x: int, y: int)
    requires
        0 <= y < g.len(),
        0 <= x < g[y].len(),
        f(g[y][x]),
    ensures
        grid_count(g, f) >= 1,
    decreases g.len(),
{
    if y == g.len() - 1 {
        lemma_row_count_pos(g.last(), f, x);
        lemma_grid_count_nonneg(g.drop_last(), f);
    } else {
        lemma_grid_count_pos(g.drop_last(), f, x, y);
        lemma_row_count_bounds(g.last(), f);
    }
}

pub proof fn lemma_grid_count_nonneg(g: Seq<Seq<Cell>>, f: spec_fn(Cell) -> bool)
    ensures
        grid_count(g, f) >= 0,
    decreases g.len(),
{
    if g.len() > 0 {
        lemma_grid_count_nonneg(g.drop_last(), f);
        lemma_row_count_bounds(g.last(), f);
    }
}

/// Pointwise implication between predicates bounds one count by the other.
pub proof fn lemma_row_count_le(row: Seq<Cell>, f: spec_fn(Cell) -> bool, h: spec_fn(Cell) -> bool)
    requires
        forall|c: Cell| #[trigger] f(c) ==> h(c),
    ensures
        row_count(row, f) <= row_count(row, h),
    decreases row.len(),
{
    if row.len() > 0 {
        lemma_row_count_le(row.drop_last(), f, h);
    }
}

pub proof fn lemma_grid_count_le(
    g: Seq<Seq<Cell>>,
    f: spec_fn(Cell) -> bool,
    h: spec_fn(Cell) -> bool,
)
    requires
        forall|c: Cell| #[trigger] f(c) ==> h(c),
    ensures
        grid_count(g, f) <= grid_count(g, h),
    decreases g.len(),
{
    if g.len() > 0 {
        lemma_grid_count_le(g.drop_last(), f, h);
        lemma_row_count_le(g.last(), f, h);
    }
}

/// Complementary predicates count up to the number of cells.
pub proof fn lemma_row_count_complement(
    row: Seq<Cell>,
    f: spec_fn(Cell) -> bool,
    h: spec_fn(Cell) -> bool,
)
    requires
        forall|c: Cell| #[trigger] h(c) <==> !f(c),
    ensures
        row_count(row, f) + row_count(row, h) == row.len(),
    decreases row.len(),
{
    if row.len() > 0 {
        lemma_row_count_complement(row.drop_last(), f, h);
    }
}

pub proof fn lemma_grid_count_complement(
    g: Seq<Seq<Cell>>,
    f: spec_fn(Cell) -> bool,
    h: spec_fn(Cell) -> bool,
    w: int,
)
    requires
        forall|c: Cell| #[trigger] h(c) <==> !f(c),
        forall|y: int| 0 <= y < g.len() ==> (#[trigger] g[y]).len() == w,
    ensures
        grid_count(g, f) + grid_count(g, h) == g.len() * w,
    decreases g.len(),
{
    if g.len() == 0 {
    } else {
        let gp = g.drop_last();
        assert(forall|y: int| 0 <= y < gp.len() ==> (#[trigger] gp[y]).len() == w);
        lemma_grid_count_complement(gp, f, h, w);
        lemma_row_count_complement(g.last(), f, h);
        assert((g.len() - 1) * w + w == g.len() * w) by (nonlinear_arith);
    }
}

/// A count over cells that nowhere satisfy the predicate is zero.
pub proof fn lemma_row_count_zero(row: Seq<Cell>, f: spec_fn(Cell) -> bool)
    requires
        forall|j: int| 0 <= j < row.len() ==> !f(#[trigger] row[j]),
    ensures
        row_count(row, f) == 0,
    decreases row.len(),
{
    if row.len() > 0 {
        lemma_row_count_zero(row.drop_last(), f);
    }
}

pub proof fn lemma_grid_count_zero(g: Seq<Seq<Cell>>, f: spec_fn(Cell) -> bool)
    requires
        forall|y: int, x: int|
            0 <= y < g.len() && 0 <= x < (#[trigger] g[y]).len() ==> !f(#[trigger] g[y][x]),
    ensures
        grid_count(g, f) == 0,
    decreases g.len(),
{
    if g.len() > 0 {
        lemma_grid_count_zero(g.drop_last(), f);
        lemma_row_count_zero(g.last(), f);
    }
}

// ------------------------------------------------------------------
// Well-formedness of a state.
// ------------------------------------------------------------------

/// Invariant of every state reachable through the guarded dispatch
/// pipeline: the grid has the declared dimensions, the cursor is inside it,
/// and each counter equals the number of grid cells it stands for; the game
/// is won exactly when every safe cell is revealed.
pub open spec fn state_wf(s: AppState) -> bool {
    &&& crate::dims_fit(s.width as int, s.height as int)
    &&& grid_dims_ok(s.gview(), s.width as int, s.height as int)
    &&& s.cursor_x < s.width
    &&& s.cursor_y < s.height
    &&& s.mine_count as int == mines_in(s.gview())
    &&& s.total_safe as int == s.width * s.height - s.mine_count
    &&& s.mine_count <= s.width * s.height
    &&& s.cells_revealed as int == revealed_safe_in(s.gview())
    &&& s.flags_placed as int == flagged_in(s.gview())
    &&& (s.game_state == GameState::Won <==> s.cells_revealed == s.total_safe)
}

/// In a well-formed state the revealed counter never exceeds the number of
/// safe cells, equality holds exactly in the won phase, and the flag counter
/// never exceeds the grid size.
pub proof fn lemma_wf_bounds(s: AppState)
    requires
        state_wf(s),
    ensures
        s.cells_revealed <= s.total_safe,
        s.cells_revealed == s.total_safe <==> s.game_state == GameState::Won,
        s.flags_placed <= s.width * s.height,
{
    let g = s.gview();
    lemma_grid_count_le(g, |c: Cell| cell_is_revealed_safe(c), |c: Cell| cell_is_safe(c));
    lemma_grid_count_complement(
        g,
        |c: Cell| cell_is_mine(c),
        |c: Cell| cell_is_safe(c),
        s.width as int,
    );
    assert(s.height * s.width == s.width * s.height) by (nonlinear_arith);
    lemma_grid_count_bounds(g, |c: Cell| cell_is_flagged(c), s.width as int);
}

// ------------------------------------------------------------------
// Adjacency.
// ------------------------------------------------------------------

/// The two coordinates are distinct and within a king's move of each other.
pub open spec fn adjacent8(x1: int, y1: int, x2: int, y2: int) -> bool {
    &&& !(x1 == x2 && y1 == y2)
    &&& -1 <= x2 - x1 <= 1
    &&& -1 <= y2 - y1 <= 1
}

pub open spec fn mine_at(g: Seq<Seq<Cell>>, w: int, h: int, x: int, y: int) -> int {
    if in_grid(w, h, x, y) && g[y][x].mine {
        1
    } else {
        0
    }
}

/// Number of hazardous cells among the up-to-eight neighbours of (x, y).
pub open spec fn adj_mine_count(g: Seq<Seq<Cell>>, w: int, h: int, x: int, y: int) -> int {
    mine_at(g, w, h, x - 1, y - 1) + mine_at(g, w, h, x, y - 1) + mine_at(g, w, h, x + 1, y - 1)
        + mine_at(g, w, h, x - 1, y) + mine_at(g, w, h, x + 1, y) + mine_at(g, w, h, x - 1, y + 1)
        + mine_at(g, w, h, x, y + 1) + mine_at(g, w, h, x + 1, y + 1)
}

pub open spec fn maybe_pos(w: int, h: int, x: int, y: int) -> Seq<(usize, usize)> {
    if in_grid(w, h, x, y) {
        seq![(x as usize, y as usize)]
    } else {
        Seq::empty()
    }
}

/// The neighbour coordinates of (x, y) that lie inside a w-by-h grid, in
/// row-major order.
pub open spec fn neighbor_list(x: int, y: int, w: int, h: int) -> Seq<(usize, usize)> {
    maybe_pos(w, h, x - 1, y - 1) + maybe_pos(w, h, x, y - 1) + maybe_pos(w, h, x + 1, y - 1)
        + maybe_pos(w, h, x - 1, y) + maybe_pos(w, h, x + 1, y) + maybe_pos(w, h, x - 1, y + 1)
        + maybe_pos(w, h, x, y + 1) + maybe_pos(w, h, x + 1, y + 1)
}

pub proof fn lemma_seq_concat_contains<A>(a: Seq<A>, b: Seq<A>, x: A)
    ensures
        (a + b).contains(x) <==> (a.contains(x) || b.contains(x)),
{
    if a.contains(x) {
        let i = choose|i: int| 0 <= i < a.len() && a[i] == x;
        assert((a + b)[i] == x);
    }
    if b.contains(x) {
        let i = choose|i: int| 0 <= i < b.len() && b[i] == x;
        assert((a + b)[a.len() + i] == x);
    }
    if (a + b).contains(x) {
        let i = choose|i: int| 0 <= i < (a + b).len() && (a + b)[i] == x;
        if i < a.len() {
            assert(a[i] == x);
        } else {
            assert(b[i - a.len()] == x);
        }
    }
}

pub proof fn lemma_maybe_pos_contains(w: int, h: int, x: int, y: int, p: (usize, usize))
    requires
        0 <= w <= 0xFFFF,
        0 <= h <= 0xFFFF,
    ensures
        maybe_pos(w, h, x, y).contains(p) <==> (in_grid(w, h, x, y) && p.0 as int == x && p.1
            as int == y),
{
    if in_grid(w, h, x, y) {
        let q = (x as usize, y as usize);
        assert(q.0 as int == x && q.1 as int == y);
        assert(maybe_pos(w, h, x, y)[0] == q);
        if p.0 as int == x && p.1 as int == y {
            assert(p == q);
            assert(maybe_pos(w, h, x, y).contains(p));
        }
    }
}

/// Membership in the neighbour list is exactly in-grid adjacency.
pub proof fn lemma_neighbor_list_members(x: int, y: int, w: int, h: int)
    requires
        0 <= w <= 0xFFFF,
        0 <= h <= 0xFFFF,
    ensures
        forall|p: (usize, usize)| #[trigger]
            neighbor_list(x, y, w, h).contains(p) <==> (in_grid(w, h, p.0 as int, p.1 as int)
                && adjacent8(x, y, p.0 as int, p.1 as int)),
{
    let m1 = maybe_pos(w, h, x - 1, y - 1);
    let m2 = maybe_pos(w, h, x, y - 1);
    let m3 = maybe_pos(w, h, x + 1, y - 1);
    let m4 = maybe_pos(w, h, x - 1, y);
    let m5 = maybe_pos(w, h, x + 1, y);
    let m6 = maybe_pos(w, h, x - 1, y + 1);
    let m7 = maybe_pos(w, h, x, y + 1);
    let m8 = maybe_pos(w, h, x + 1, y + 1);
    assert forall|p: (usize, usize)| #[trigger]
        neighbor_list(x, y, w, h).contains(p) <==> (in_grid(w, h, p.0 as int, p.1 as int)
            && adjacent8(x, y, p.0 as int, p.1 as int)) by {
        lemma_seq_concat_contains(m1, m2, p);
        lemma_seq_concat_contains(m1 + m2, m3, p);
        lemma_seq_concat_contains(m1 + m2 + m3, m4, p);
        lemma_seq_concat_contains(m1 + m2 + m3 + m4, m5, p);
        lemma_seq_concat_contains(m1 + m2 + m3 + m4 + m5, m6, p);
        lemma_seq_concat_contains(m1 + m2 + m3 + m4 + m5 + m6, m7, p);
        lemma_seq_concat_contains(m1 + m2 + m3 + m4 + m5 + m6 + m7, m8, p);
        lemma_maybe_pos_contains(w, h, x - 1, y - 1, p);
        lemma_maybe_pos_contains(w, h, x, y - 1, p);
        lemma_maybe_pos_contains(w, h, x + 1, y - 1, p);
        lemma_maybe_pos_contains(w, h, x - 1, y, p);
        lemma_maybe_pos_contains(w, h, x + 1, y, p);
        lemma_maybe_pos_contains(w, h, x - 1, y + 1, p);
        lemma_maybe_pos_contains(w, h, x, y + 1, p);
        lemma_maybe_pos_contains(w, h, x + 1, y + 1, p);
    }
}

fn maybe_push(v: &mut Vec<(usize, usize)>, w: usize, h: usize, nx: i128, ny: i128)
    requires
        w <= 0xFFFF,
        h <= 0xFFFF,
    ensures
        final(v)@ == old(v)@ + maybe_pos(w as int, h as int, nx as int, ny as int),
{
    if 0 <= nx && nx < w as i128 && 0 <= ny && ny < h as i128 {
        v.push((nx as usize, ny as usize));
        proof {
            assert(final(v)@ =~= old(v)@ + maybe_pos(w as int, h as int, nx as int, ny as int));
        }
    } else {
        proof {
            assert(final(v)@ =~= old(v)@ + maybe_pos(w as int, h as int, nx as int, ny as int));
        }
    }
}

/// Return valid neighbor coordinates within the grid bounds.
pub fn neighbors(x: usize, y: usize, width: usize, height: usize) -> (r: Vec<(usize, usize)>)
    requires
        width <= 0xFFFF,
        height <= 0xFFFF,
    ensures
        r@ == neighbor_list(x as int, y as int, width as int, height as int),
{
    let mut r: Vec<(usize, usize)> = Vec::new();
    let xi = x as i128;
    let yi = y as i128;
    maybe_push(&mut r, width, height, xi - 1, yi - 1);
    maybe_push(&mut r, width, height, xi, yi - 1);
    maybe_push(&mut r, width, height, xi + 1, yi - 1);
    maybe_push(&mut r, width, height, xi - 1, yi);
    maybe_push(&mut r, width, height, xi + 1, yi);
    maybe_push(&mut r, width, height, xi - 1, yi + 1);
    maybe_push(&mut r, width, height, xi, yi + 1);
    maybe_push(&mut r, width, height, xi + 1, yi + 1);
    proof {
        assert(r@ =~= neighbor_list(x as int, y as int, width as int, height as int));
    }
    r
}

fn mine_ind(grid: &Vec<Vec<Cell>>, w: usize, h: usize, nx: i128, ny: i128) -> (r: u8)
    requires
        grid_dims_ok(grid_view(*grid), w as int, h as int),
        w <= 0xFFFF,
        h <= 0xFFFF,
    ensures
        r as int == mine_at(grid_view(*grid), w as int, h as int, nx as int, ny as int),
        r <= 1,
{
    if 0 <= nx && nx < w as i128 && 0 <= ny && ny < h as i128 {
        let xu = nx as usize;
        let yu = ny as usize;
        assert(grid@[yu as int]@ == grid_view(*grid)[yu as int]);
        if grid[yu][xu].mine {
            1
        } else {
            0
        }
    } else {
        0
    }
}

/// Number of hazardous neighbours of (x, y).
pub fn count_adjacent_mines(grid: &Vec<Vec<Cell>>, x: usize, y: usize, width: usize, height: usize) -> (r: u8)
    requires
        grid_dims_ok(grid_view(*grid), width as int, height as int),
        width <= 0xFFFF,
        height <= 0xFFFF,
    ensures
        r as int == adj_mine_count(grid_view(*grid), width as int, height as int, x as int, y as int),
{
    let xi = x as i128;
    let yi = y as i128;
    let mut count: u8 = 0;
    count = count + mine_ind(grid, width, height, xi - 1, yi - 1);
    count = count + mine_ind(grid, width, height, xi, yi - 1);
    count = count + mine_ind(grid, width, height, xi + 1, yi - 1);
    count = count + mine_ind(grid, width, height, xi - 1, yi);
    count = count + mine_ind(grid, width, height, xi + 1, yi);
    count = count + mine_ind(grid, width, height, xi - 1, yi + 1);
    count = count + mine_ind(grid, width, height, xi, yi + 1);
    count = count + mine_ind(grid, width, height, xi + 1, yi + 1);
    count
}

// ------------------------------------------------------------------
// Construction of a fresh board.
// ------------------------------------------------------------------

/// The cell of a just-created board before adjacency counts are filled in.
pub open spec fn base_cell(positions: Seq<(usize, usize)>, x: int, y: int) -> Cell {
    Cell {
        mine: positions.contains((x as usize, y as usize)),
        revealed: false,
        flagged: false,
        adjacent: 0u8,
    }
}

pub open spec fn mine_grid(w: int, h: int, positions: Seq<(usize, usize)>) -> Seq<Seq<Cell>> {
    Seq::new(h as nat, |y: int| Seq::new(w as nat, |x: int| base_cell(positions, x, y)))
}

/// The cell of a just-created board: hazardous exactly at the given
/// positions, nothing revealed or flagged, and every safe cell carrying the
/// number of hazardous neighbours.
pub open spec fn fresh_cell(w: int, h: int, positions: Seq<(usize, usize)>, x: int, y: int) -> Cell {
    let b = base_cell(positions, x, y);
    if b.mine {
        b
    } else {
        Cell { adjacent: adj_mine_count(mine_grid(w, h, positions), w, h, x, y) as u8, ..b }
    }
}

pub open spec fn fresh_grid(w: int, h: int, positions: Seq<(usize, usize)>) -> Seq<Seq<Cell>> {
    Seq::new(h as nat, |y: int| Seq::new(w as nat, |x: int| fresh_cell(w, h, positions, x, y)))
}

/// Acceptable hazard placement for a difficulty: pairwise distinct in-bounds
/// coordinates, as many as the difficulty asks for.
pub open spec fn valid_mine_positions(d: Difficulty, positions: Seq<(usize, usize)>) -> bool {
    &&& positions.no_duplicates()
    &&& positions.len() == d.params_spec().2
    &&& forall|k: int|
        0 <= k < positions.len() ==> (#[trigger] positions[k]).0 < d.params_spec().0
            && positions[k].1 < d.params_spec().1
}

/// The state is a freshly generated board for difficulty `d` with hazards at
/// exactly the given positions.
pub open spec fn fresh_state_wrt(d: Difficulty, positions: Seq<(usize, usize)>, post: AppState) -> bool {
    &&& post.width as int == d.params_spec().0
    &&& post.height as int == d.params_spec().1
    &&& post.mine_count as int == d.params_spec().2
    &&& post.gview() == fresh_grid(d.params_spec().0, d.params_spec().1, positions)
    &&& post.cursor_x as int == d.params_spec().0 / 2
    &&& post.cursor_y as int == d.params_spec().1 / 2
    &&& post.game_state == GameState::Playing
    &&& post.difficulty == d
    &&& post.flags_placed == 0
    &&& post.cells_revealed == 0
    &&& post.total_safe as int == d.params_spec().0 * d.params_spec().1 - d.params_spec().2
}

/// The state is a freshly generated board for difficulty `d` with some
/// acceptable hazard placement.
pub open spec fn fresh_state_rel(d: Difficulty, post: AppState) -> bool {
    &&& state_wf(post)
    &&& exists|positions: Seq<(usize, usize)>|
        valid_mine_positions(d, positions) && #[trigger] fresh_state_wrt(d, positions, post)
}

/// Two grids with the same hazard layout have the same adjacency counts.
proof fn lemma_adj_count_congruence(g1: Seq<Seq<Cell>>, g2: Seq<Seq<Cell>>, w: int, h: int, x: int, y: int)
    requires
        forall|yy: int, xx: int|
            in_grid(w, h, xx, yy) ==> (#[trigger] g1[yy][xx]).mine == g2[yy][xx].mine,
    ensures
        adj_mine_count(g1, w, h, x, y) == adj_mine_count(g2, w, h, x, y),
{
    assert forall|xx: int, yy: int| true implies mine_at(g1, w, h, xx, yy) == mine_at(
        g2,
        w,
        h,
        xx,
        yy,
    ) by {
        if in_grid(w, h, xx, yy) {
            assert(g1[yy][xx].mine == g2[yy][xx].mine);
        }
    }
}

impl AppState {
    /// Build the board for `difficulty` with hazards at exactly the given
    /// positions. The random constructor `new` feeds this a shuffled prefix
    /// of all coordinates; tests may pass a chosen placement.
    pub fn from_mine_positions(difficulty: Difficulty, positions: &Vec<(usize, usize)>) -> (s: AppState)
        requires
            valid_mine_positions(difficulty, positions@),
        ensures
            fresh_state_wrt(difficulty, positions@, s),
            state_wf(s),
    {
        let (width, height, mines) = difficulty.params();
        proof {
            assert(width >= 9 && width <= 30 && height >= 9 && height <= 16 && mines <= 99
                && mines as int <= width as int * height as int - 1);
        }
        let w = Ghost(width as int);
        let h = Ghost(height as int);

        // An all-default grid of the right shape.
        let mut grid: Vec<Vec<Cell>> = Vec::new();
        while grid.len() < height
            invariant
                grid@.len() <= h@,
                forall|yy: int| 0 <= yy < grid@.len() ==> (#[trigger] grid@[yy])@.len() == w@,
                forall|yy: int, xx: int|
                    0 <= yy < grid@.len() && 0 <= xx < w@ ==> (#[trigger] grid@[yy]@[xx]) == (Cell {
                        mine: false,
                        revealed: false,
                        flagged: false,
                        adjacent: 0u8,
                    }),
                w@ == width as int,
                h@ == height as int,
            decreases h@ - grid@.len(),
        {
            let mut row: Vec<Cell> = Vec::new();
            while row.len() < width
                invariant
                    row@.len() <= w@,
                    forall|xx: int| 0 <= xx < row@.len() ==> (#[trigger] row@[xx]) == (Cell {
                        mine: false,
                        revealed: false,
                        flagged: false,
                        adjacent: 0u8,
                    }),
                    w@ == width as int,
                decreases w@ - row@.len(),
            {
                row.push(Cell::default());
            }
            grid.push(row);
        }

        proof {
            lemma_grid_count_zero(grid_view(grid), |c: Cell| cell_is_mine(c));
            assert(positions@.take(0).len() == 0);
        }

        // Place the hazards. Each position is fresh (they are pairwise
        // distinct), so the hazard count grows by one per step.
        let mut i: usize = 0;
        while i < positions.len()
            invariant
                i <= positions@.len(),
                valid_mine_positions(difficulty, positions@),
                w@ == width as int,
                h@ == height as int,
                width as int == difficulty.params_spec().0,
                height as int == difficulty.params_spec().1,
                grid@.len() == h@,
                forall|yy: int| 0 <= yy < h@ ==> (#[trigger] grid@[yy])@.len() == w@,
                forall|yy: int, xx: int|
                    0 <= yy < h@ && 0 <= xx < w@ ==> (#[trigger] grid@[yy]@[xx]) == (Cell {
                        mine: positions@.take(i as int).contains((xx as usize, yy as usize)),
                        revealed: false,
                        flagged: false,
                        adjacent: 0u8,
                    }),
                mines_in(grid_view(grid)) == i as int,
            decreases positions@.len() - i,
        {
            let (px, py) = positions[i];
            let ghost old_gv = grid_view(grid);
            let cur = grid[py][px];
            proof {
                // This cell is not among the first i positions, so it is not
                // yet hazardous.
                let taken = positions@.take(i as int);
                if taken.contains((px, py)) {
                    let k = choose|k: int| 0 <= k < taken.len() && taken[k] == (px, py);
                    assert(positions@[k] == positions@[i as int]);
                    assert(false);
                }
                assert(!cur.mine);
            }
            grid[py][px] = Cell { mine: true, revealed: cur.revealed, flagged: cur.flagged, adjacent: cur.adjacent };
            proof {
                let gv = grid_view(grid);
                let c2 = Cell { mine: true, revealed: cur.revealed, flagged: cur.flagged, adjacent: cur.adjacent };
                assert(gv =~~= old_gv.update(py as int, old_gv[py as int].update(px as int, c2)));
                lemma_grid_count_update(old_gv, |c: Cell| cell_is_mine(c), py as int, old_gv[py as int].update(px as int, c2));
                lemma_row_count_update(old_gv[py as int], |c: Cell| cell_is_mine(c), px as int, c2);
                assert forall|q: (usize, usize)| #[trigger]
                    positions@.take(i + 1).contains(q) <==> (positions@.take(i as int).contains(q)
                        || q == (px, py)) by {
                    let taken = positions@.take(i as int);
                    let ext = taken + seq![(px, py)];
                    assert(positions@.take(i + 1) =~= ext);
                    lemma_seq_concat_contains(taken, seq![(px, py)], q);
                    if q == (px, py) {
                        assert(seq![(px, py)][0] == q);
                        assert(seq![(px, py)].contains(q));
                    }
                    if seq![(px, py)].contains(q) {
                        assert(seq![(px, py)][choose|ii: int|
                            0 <= ii < 1 && seq![(px, py)][ii] == q] == q);
                    }
                }
            }
            i = i + 1;
        }
        proof {
            assert(positions@.take(positions@.len() as int) =~= positions@);
        }

        // Fill in adjacency counts for the safe cells.
        let ghost base = mine_grid(w@, h@, positions@);
        proof {
            assert forall|yy: int, xx: int| 0 <= yy < h@ && 0 <= xx < w@ implies (#[trigger] grid@[yy]@[xx])
                == base_cell(positions@, xx, yy) by {}
        }
        let mut y: usize = 0;
        while y < height
            invariant
                y <= height,
                width <= 0xFFFF,
                height <= 0xFFFF,
                w@ == width as int,
                h@ == height as int,
                grid@.len() == h@,
                forall|yy: int| 0 <= yy < h@ ==> (#[trigger] grid@[yy])@.len() == w@,
                forall|yy: int, xx: int|
                    0 <= yy < y as int && 0 <= xx < w@ ==> (#[trigger] grid@[yy]@[xx]) == fresh_cell(
                        w@, h@, positions@, xx, yy),
                forall|yy: int, xx: int|
                    y as int <= yy < h@ && 0 <= xx < w@ ==> (#[trigger] grid@[yy]@[xx]) == base_cell(
                        positions@, xx, yy),
                mines_in(grid_view(grid)) == positions@.len() as int,
                base == mine_grid(w@, h@, positions@),
            decreases h@ - y as int,
        {
            let mut x: usize = 0;
            while x < width
                invariant
                    x <= width,
                    y < height,
                    width <= 0xFFFF,
                    height <= 0xFFFF,
                    w@ == width as int,
                    h@ == height as int,
                    grid@.len() == h@,
                    forall|yy: int| 0 <= yy < h@ ==> (#[trigger] grid@[yy])@.len() == w@,
                    forall|yy: int, xx: int|
                        0 <= yy < y as int && 0 <= xx < w@ ==> (#[trigger] grid@[yy]@[xx])
                            == fresh_cell(w@, h@, positions@, xx, yy),
                    forall|xx: int|
                        0 <= xx < x as int ==> (#[trigger] grid@[y as int]@[xx]) == fresh_cell(
                            w@, h@, positions@, xx, y as int),
                    forall|xx: int|
                        x as int <= xx < w@ ==> (#[trigger] grid@[y as int]@[xx]) == base_cell(
                            positions@, xx, y as int),
                    forall|yy: int, xx: int|
                        y as int + 1 <= yy < h@ && 0 <= xx < w@ ==> (#[trigger] grid@[yy]@[xx])
                            == base_cell(positions@, xx, yy),
                    mines_in(grid_view(grid)) == positions@.len() as int,
                    base == mine_grid(w@, h@, positions@),
                decreases w@ - x as int,
            {
                let ghost old_gv = grid_view(grid);
                proof {
                    // Every cell still has its creation hazard flag.
                    assert forall|yy: int, xx: int| in_grid(w@, h@, xx, yy) implies (
                        #[trigger] old_gv[yy][xx]).mine == base[yy][xx].mine by {
                        assert(base[yy][xx] == base_cell(positions@, xx, yy));
                    }
                }
                let cur = grid[y][x];
                if !cur.mine {
                    let a = count_adjacent_mines(&grid, x, y, width, height);
                    proof {
                        lemma_adj_count_congruence(old_gv, base, w@, h@, x as int, y as int);
                    }
                    grid[y][x] = Cell { mine: cur.mine, revealed: cur.revealed, flagged: cur.flagged, adjacent: a };
                    proof {
                        let c2 = Cell { mine: cur.mine, revealed: cur.revealed, flagged: cur.flagged, adjacent: a };
                        let gv = grid_view(grid);
                        assert(gv =~~= old_gv.update(y as int, old_gv[y as int].update(x as int, c2)));
                        lemma_grid_count_update(old_gv, |c: Cell| cell_is_mine(c), y as int, old_gv[y as int].update(x as int, c2));
                        lemma_row_count_update(old_gv[y as int], |c: Cell| cell_is_mine(c), x as int, c2);
                        assert(grid@[y as int]@[x as int] == fresh_cell(w@, h@, positions@, x as int, y as int));
                    }
                } else {
                    proof {
                        assert(grid@[y as int]@[x as int] == fresh_cell(w@, h@, positions@, x as int, y as int));
                    }
                }
                x = x + 1;
            }
            y = y + 1;
        }

        let cursor_x = width / 2;
        let cursor_y = height / 2;
        let total_safe = width * height - mines;
        let s = AppState {
            grid,
            width,
            height,
            cursor_x,
            cursor_y,
            game_state: GameState::Playing,
            difficulty,
            mine_count: mines,
            flags_placed: 0,
            cells_revealed: 0,
            total_safe,
        };
        proof {
            let gv = s.gview();
            assert(gv =~~= fresh_grid(w@, h@, positions@));
            lemma_grid_count_zero(gv, |c: Cell| cell_is_revealed_safe(c));
            lemma_grid_count_zero(gv, |c: Cell| cell_is_flagged(c));
        }
        s
    }

    /// Build a fresh board for `difficulty` with randomly placed hazards.
    pub fn new(difficulty: Difficulty) -> (s: AppState)
        ensures
            fresh_state_rel(difficulty, s),
            state_wf(s),
    {
        let (width, height, mines) = difficulty.params();
        proof {
            assert(width >= 9 && width <= 30 && height >= 9 && height <= 16 && mines <= 99
                && mines as int <= width as int * height as int);
        }
        let mut positions: Vec<(usize, usize)> = Vec::new();
        let mut y: usize = 0;
        while y < height
            invariant
                y <= height,
                width <= 30,
                positions@.len() == y as int * width as int,
                forall|k: int|
                    0 <= k < positions@.len() ==> (#[trigger] positions@[k]).0 < width
                        && positions@[k].1 < y,
                positions@.no_duplicates(),
            decreases height - y,
        {
            let mut x: usize = 0;
            while x < width
                invariant
                    x <= width,
                    y < height,
                    width <= 30,
                    positions@.len() == y as int * width as int + x as int,
                    forall|k: int|
                        0 <= k < positions@.len() ==> (#[trigger] positions@[k]).0 < width
                            && (positions@[k].1 < y || (positions@[k].1 == y && positions@[k].0
                            < x)),
                    positions@.no_duplicates(),
                decreases width - x,
            {
                let ghost oldp = positions@;
                positions.push((x, y));
                proof {
                    assert forall|k1: int, k2: int|
                        0 <= k1 < positions@.len() && 0 <= k2 < positions@.len() && k1 != k2
                            implies positions@[k1] != positions@[k2] by {
                        if k1 < oldp.len() && k2 < oldp.len() {
                            assert(oldp[k1] != oldp[k2]);
                        }
                    }
                }
                x = x + 1;
            }
            proof {
                assert(y as int * width as int + width as int == (y as int + 1) * width as int)
                    by (nonlinear_arith);
            }
            y = y + 1;
        }
        proof {
            assert(height as int * width as int >= mines as int);
        }
        let ghost before = positions@;

        shuffle_positions(&mut positions);
        let ghost shuffled = positions@;
        proof {
            broadcast use vstd::seq_lib::group_to_multiset_ensures;

            // Distinctness and membership survive a permutation.
            before.lemma_multiset_has_no_duplicates();
            assert forall|q: (usize, usize)|
                shuffled.to_multiset().contains(q) implies shuffled.to_multiset().count(q)
                == 1 by {
                assert(before.to_multiset().count(q) == shuffled.to_multiset().count(q));
            }
            shuffled.lemma_multiset_has_no_duplicates_conv();
            assert forall|k: int| 0 <= k < shuffled.len() implies (#[trigger] shuffled[k]).0
                < width && shuffled[k].1 < height by {
                assert(shuffled.contains(shuffled[k]));
                assert(shuffled.to_multiset().count(shuffled[k]) > 0);
                assert(before.to_multiset().count(shuffled[k]) > 0);
                assert(before.contains(shuffled[k]));
                let j = choose|j: int| 0 <= j < before.len() && before[j] == shuffled[k];
                assert(before[j].0 < width && before[j].1 < height);
            }
        }
        positions.truncate(mines);
        proof {
            assert(shuffled.len() >= mines as int);
            assert(positions@ == shuffled.subrange(0, mines as int));
            assert(positions@.len() == mines as int);
            assert forall|k1: int, k2: int|
                0 <= k1 < positions@.len() && 0 <= k2 < positions@.len() && k1 != k2
                    implies positions@[k1] != positions@[k2] by {
                assert(positions@[k1] == shuffled[k1] && positions@[k2] == shuffled[k2]);
            }
            assert(valid_mine_positions(difficulty, positions@));
        }
        let s = Self::from_mine_positions(difficulty, &positions);
        proof {
            assert(fresh_state_wrt(difficulty, positions@, s));
        }
        s
    }
}

/// Relies on rand's `SliceRandom::shuffle` with the thread-local generator
/// from `rand::rng()`: it permutes the vector in place, so the new contents
/// are a rearrangement of the old ones.
#[verifier::external_body]
fn shuffle_positions(v: &mut Vec<(usize, usize)>)
    ensures
        final(v)@.len() == old(v)@.len(),
        final(v)@.to_multiset() == old(v)@.to_multiset(),
{
    v.shuffle(&mut rand::rng());
}

} // verus!
