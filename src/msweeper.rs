use rand::Rng;
use vstd::prelude::*;

use crate::grid::{
    adj_count, adj_flags, adj_mines, all_opened, flood_closed, flood_result, fresh_space,
    grid_height, grid_width, in_bounds, is_step, lemma_adj_mines_same_content, lemma_flood_unique,
    lemma_grid_count_all, lemma_grid_count_disjoint, lemma_grid_count_le, lemma_grid_count_set,
    lemma_index_bound, lemma_reach_safe, lemma_reach_start, lemma_reach_step, mine_count,
    mine_pred, neighbours_opened, opened_count, opened_pred, opened_space, probe_hit, reach,
    safe_unopened, same_shape, set_cell, wf_grid, Grid, Probe, Space, SpaceState, SpaceType,
};
use crate::point::{dir_dx, dir_dy, Point};

verus! {

/// Relies on rand::thread_rng and Rng::gen::<usize>: any value may come back.
#[verifier::external_body]
fn random_usize() -> (r: usize) {
    rand::thread_rng().gen::<usize>()
}

/// Every safe unopened neighbour of `(cx, cy)` in `g0` is opened in `g` or waits in `stack`.
pub open spec fn neighbours_pending(
    g0: Grid,
    g: Grid,
    stack: Seq<Point<usize>>,
    cx: int,
    cy: int,
) -> bool {
    forall|d: int|
        0 <= d < 8 && safe_unopened(g0, cx + #[trigger] dir_dx(d), cy + dir_dy(d)) ==> g[cy
            + dir_dy(d)][cx + dir_dx(d)].state == SpaceState::Opened || stack.contains(
            Point { x: (cx + dir_dx(d)) as usize, y: (cy + dir_dy(d)) as usize },
        )
}

/// Opening one cell: nothing off the board or under a flag; a mine opens the
/// whole board and is named as the fatal one; otherwise the reveal spreads.
pub open spec fn open_one_result(g: Grid, x: int, y: int) -> (Grid, Option<(int, int)>) {
    if !in_bounds(g, x, y) || g[y][x].state == SpaceState::Flag {
        (g, None)
    } else if g[y][x].stype == SpaceType::Mine {
        (all_opened(g), Some((x, y)))
    } else {
        (flood_result(g, x, y), None)
    }
}

/// Opening the first `k` neighbours of `(x, y)` in turn, stopping at the first mine.
pub open spec fn chord_result(g: Grid, x: int, y: int, k: int) -> (Grid, Option<(int, int)>)
    decreases k,
{
    if k <= 0 {
        (g, None)
    } else {
        let prev = chord_result(g, x, y, k - 1);
        if prev.1.is_some() {
            prev
        } else {
            open_one_result(prev.0, x + dir_dx(k - 1), y + dir_dy(k - 1))
        }
    }
}

/// An open action on `(x, y)` does something: the cell is on the board and
/// either unopened, or opened with as many flags as mines around it.
pub open spec fn open_acts(g: Grid, x: int, y: int) -> bool {
    in_bounds(g, x, y) && match g[y][x].state {
        SpaceState::Unopened => true,
        SpaceState::Opened => adj_mines(g, x, y) == adj_flags(g, x, y),
        SpaceState::Flag => false,
    }
}

/// The board after an open action on `(x, y)` of a placed board, and the
/// mine that was hit, if one was.
pub open spec fn reveal_result(g: Grid, x: int, y: int) -> (Grid, Option<(int, int)>) {
    if !open_acts(g, x, y) {
        (g, None)
    } else if g[y][x].state == SpaceState::Unopened {
        open_one_result(g, x, y)
    } else {
        chord_result(g, x, y, 8)
    }
}

/// The whole effect of an open action on `(x, y)` of a placed board holding
/// `mines` mines, where `fatal` is the mine that lost the round so far:
/// the new board, the new fatal mine, and what is reported.
pub open spec fn played(g: Grid, fatal: Option<(int, int)>, x: int, y: int, mines: int) -> (
    Grid,
    Option<(int, int)>,
    Outcome,
) {
    let (g2, hit) = reveal_result(g, x, y);
    let outcome = if !open_acts(g, x, y) {
        Outcome::NoOp
    } else if hit.is_some() {
        Outcome::MineHit
    } else if opened_count(g2) >= grid_width(g) * grid_height(g) - mines {
        Outcome::Win
    } else {
        Outcome::Revealed
    };
    (g2, if hit.is_some() { hit } else { fatal }, outcome)
}

/// What a renderer shows for the cell `(x, y)`; off the board, an unopened cell.
pub open spec fn visual_of(g: Grid, fatal: Option<(int, int)>, x: int, y: int) -> Visual {
    if !in_bounds(g, x, y) {
        Visual::Unopened
    } else {
        match g[y][x].state {
            SpaceState::Unopened => Visual::Unopened,
            SpaceState::Flag => Visual::Flagged,
            SpaceState::Opened => if g[y][x].stype == SpaceType::Mine {
                if fatal == Some((x, y)) {
                    Visual::MineFatal
                } else {
                    Visual::Mine
                }
            } else {
                Visual::Empty(adj_mines(g, x, y) as usize)
            },
        }
    }
}

/// The cell that `draw` picks among the cells other than `p` on a board of
/// `w` by `h` cells.
fn pick_target(draw: usize, p: &Point<usize>, w: usize, h: usize) -> (r: (usize, usize))
    requires
        p.x < w,
        p.y < h,
        2 <= w * h <= isize::MAX,
    ensures
        r.0 as int == swap_target(draw as int, p.x as int, p.y as int, w as int, h as int).0,
        r.1 as int == swap_target(draw as int, p.x as int, p.y as int, w as int, h as int).1,
        r.0 < w,
        r.1 < h,
        !(r.0 == p.x && r.1 == p.y),
{
    let total = w * h;
    proof {
        lemma_index_bound(w as int, h as int, p.x as int, p.y as int);
    }
    let press_pos = p.y * w + p.x;
    let orig_rand = draw % (total - 1);
    let rand = if orig_rand >= press_pos {
        orig_rand + 1
    } else {
        orig_rand
    };
    let rand_x = rand % w;
    let rand_y = rand / w;
    proof {
        let q = rand_y as int;
        let r = rand_x as int;
        vstd::arithmetic::div_mod::lemma_fundamental_div_mod(rand as int, w as int);
        assert(q < h) by (nonlinear_arith)
            requires
                rand == w * q + r,
                0 <= r < w,
                rand < w * h,
        ;
        if r == p.x && q == p.y {
            assert(rand == press_pos) by (nonlinear_arith)
                requires
                    rand == w * q + r,
                    r == p.x,
                    q == p.y,
                    press_pos == p.y * w + p.x,
            ;
        }
    }
    (rand_x, rand_y)
}

/// What a renderer shows for every cell, row by row.
pub open spec fn visual_grid(g: Grid, fatal: Option<(int, int)>) -> Seq<Seq<Visual>> {
    Seq::new(g.len(), |y: int| Seq::new(g[y].len(), |x: int| visual_of(g, fatal, x, y)))
}

/// `(x, y)` lies in `after` and looks different there than in `before`.
pub open spec fn differs(before: Seq<Vec<Visual>>, after: Seq<Vec<Visual>>, x: int, y: int) -> bool {
    0 <= y < after.len() && 0 <= x < after[y]@.len() && before[y]@[x] != after[y]@[x]
}

/// The cells whose look differs between two snapshots of one board, read row
/// by row, each with its new look.
pub fn changed_cells(before: &Vec<Vec<Visual>>, after: &Vec<Vec<Visual>>) -> (r: Vec<(usize, usize, Visual)>)
    requires
        before@.len() == after@.len(),
        forall|y: int| 0 <= y < after@.len() ==> #[trigger] before@[y]@.len() == after@[y]@.len(),
    ensures
        forall|i: int|
            0 <= i < r@.len() ==> differs(before@, after@, #[trigger] r@[i].0 as int, r@[i].1 as int)
                && r@[i].2 == after@[r@[i].1 as int]@[r@[i].0 as int],
        forall|y: int, x: int|
            #[trigger] differs(before@, after@, x, y) ==> r@.contains(
                (x as usize, y as usize, after@[y]@[x]),
            ),
        forall|i: int, j: int|
            0 <= i < j < r@.len() ==> row_major_before(
                #[trigger] r@[i].0 as int,
                r@[i].1 as int,
                #[trigger] r@[j].0 as int,
                r@[j].1 as int,
            ),
{
    let mut r: Vec<(usize, usize, Visual)> = Vec::new();
    let mut y: usize = 0;
    while y < after.len()
        invariant
            y <= after@.len(),
            before@.len() == after@.len(),
            forall|yy: int| 0 <= yy < after@.len() ==> #[trigger] before@[yy]@.len() == after@[yy]@.len(),
            forall|i: int|
                0 <= i < r@.len() ==> differs(before@, after@, #[trigger] r@[i].0 as int, r@[i].1 as int)
                    && r@[i].2 == after@[r@[i].1 as int]@[r@[i].0 as int]
                    && row_major_before(r@[i].0 as int, r@[i].1 as int, 0, y as int),
            forall|yy: int, xx: int|
                #[trigger] differs(before@, after@, xx, yy) && row_major_before(xx, yy, 0, y as int) ==> r@.contains(
                    (xx as usize, yy as usize, after@[yy]@[xx]),
                ),
            forall|i: int, j: int|
                0 <= i < j < r@.len() ==> row_major_before(
                    #[trigger] r@[i].0 as int,
                    r@[i].1 as int,
                    #[trigger] r@[j].0 as int,
                    r@[j].1 as int,
                ),
        decreases after@.len() - y,
    {
        let mut x: usize = 0;
        while x < after[y].len()
            invariant
                x <= after@[y as int]@.len(),
                y < after@.len(),
                before@.len() == after@.len(),
                forall|yy: int| 0 <= yy < after@.len() ==> #[trigger] before@[yy]@.len() == after@[yy]@.len(),
                forall|i: int|
                    0 <= i < r@.len() ==> differs(before@, after@, #[trigger] r@[i].0 as int, r@[i].1 as int)
                        && r@[i].2 == after@[r@[i].1 as int]@[r@[i].0 as int]
                        && row_major_before(r@[i].0 as int, r@[i].1 as int, x as int, y as int),
                forall|yy: int, xx: int|
                    #[trigger] differs(before@, after@, xx, yy) && row_major_before(xx, yy, x as int, y as int) ==> r@.contains(
                        (xx as usize, yy as usize, after@[yy]@[xx]),
                    ),
                forall|i: int, j: int|
                    0 <= i < j < r@.len() ==> row_major_before(
                        #[trigger] r@[i].0 as int,
                        r@[i].1 as int,
                        #[trigger] r@[j].0 as int,
                        r@[j].1 as int,
                    ),
            decreases after@[y as int]@.len() - x,
        {
            let v = after[y][x];
            if before[y][x] != v {
                let ghost r0 = r@;
                r.push((x, y, v));
                proof {
                    assert(r@[r0.len() as int] == (x, y, v));
                    assert forall|yy: int, xx: int|
                        #[trigger] differs(before@, after@, xx, yy) && row_major_before(xx, yy, x + 1, y as int) implies r@.contains(
                            (xx as usize, yy as usize, after@[yy]@[xx])) by {
                        if xx == x && yy == y {
                        } else {
                            let i = choose|i: int| 0 <= i < r0.len() && r0[i] == (xx as usize, yy as usize, after@[yy]@[xx]);
                            assert(r@[i] == r0[i]);
                        }
                    }
                    assert forall|i: int| 0 <= i < r@.len() implies differs(before@, after@, #[trigger] r@[i].0 as int, r@[i].1 as int)
                        && r@[i].2 == after@[r@[i].1 as int]@[r@[i].0 as int]
                        && row_major_before(r@[i].0 as int, r@[i].1 as int, x + 1, y as int) by {
                        if i < r0.len() {
                            assert(r@[i] == r0[i]);
                        }
                    }
                    assert forall|i: int, j: int|
                        0 <= i < j < r@.len() implies row_major_before(
                            #[trigger] r@[i].0 as int,
                            r@[i].1 as int,
                            #[trigger] r@[j].0 as int,
                            r@[j].1 as int,
                        ) by {
                        assert(r@[i] == r0[i]);
                        if j < r0.len() {
                            assert(r@[j] == r0[j]);
                        }
                    }
                }
            }
            x = x + 1;
        }
        y = y + 1;
    }
    r
}

/// `(x, y)` comes before `(cx, cy)` when the board is read row by row.
pub open spec fn row_major_before(x: int, y: int, cx: int, cy: int) -> bool {
    y < cy || (y == cy && x < cx)
}

/// Position of `(x, y)` among the cells other than `(px, py)`, read row by row
/// on a board `w` cells wide.
pub open spec fn placement_rank(x: int, y: int, px: int, py: int, w: int) -> int {
    y * w + x - if row_major_before(px, py, x, y) {
        1int
    } else {
        0int
    }
}

/// The content that the cell of the given rank gets before the shuffle: the
/// first `empties` cells stay empty and the rest hold mines.
pub open spec fn placed_type(rank: int, empties: int) -> SpaceType {
    if rank < empties {
        SpaceType::Empty
    } else {
        SpaceType::Mine
    }
}

/// `g` is `g0` after placement around `(px, py)`: the same shape, every cell's
/// state kept, `(px, py)` untouched and empty, and `mines` mines in all.
pub open spec fn placed_around(g0: Grid, g: Grid, px: int, py: int, mines: nat) -> bool {
    &&& same_shape(g0, g)
    &&& g[py][px] == g0[py][px]
    &&& g[py][px].stype == SpaceType::Empty
    &&& forall|y: int, x: int| in_bounds(g, x, y) ==> #[trigger] g[y][x].state == g0[y][x].state
    &&& mine_count(g) == mines
}

/// The cell whose content is swapped with another during the shuffle: the draw,
/// reduced to one of the `w * h - 1` cells other than `(px, py)`, read row by row.
pub open spec fn swap_target(draw: int, px: int, py: int, w: int, h: int) -> (int, int) {
    let r = draw % (w * h - 1);
    let t = if r >= py * w + px {
        r + 1
    } else {
        r
    };
    (t % w, t / w)
}

/// The board with the contents of `(x, y)` and `t` exchanged, every state kept.
pub open spec fn swap_content(g: Grid, x: int, y: int, t: (int, int)) -> Grid {
    let a = g[y][x];
    let b = g[t.1][t.0];
    let g1 = set_cell(g, x, y, Space { state: a.state, stype: b.stype });
    set_cell(g1, t.0, t.1, Space { state: g1[t.1][t.0].state, stype: a.stype })
}

/// Column on the screen where the board starts, less one.
pub const BOARD_OFFSET_X: usize = 2;

/// Row on the screen where the board starts.
pub const BOARD_OFFSET_Y: usize = 3;

/// Why a field could not be built.
#[derive(Clone, Copy, Debug, PartialEq, Eq, Structural)]
pub enum BoardError {
    /// Width or height is zero.
    InvalidSize { width: usize, height: usize, mine_num: usize },
    /// At least as many mines as cells.
    TooManyMines { width: usize, height: usize, mine_num: usize },
}

/// What a renderer shows for one cell.
#[derive(Clone, Copy, Debug, PartialEq, Eq, Structural)]
pub enum Visual {
    Unopened,
    Flagged,
    /// An opened safe cell with the number of mines around it.
    Empty(usize),
    Mine,
    /// The mine whose opening lost the round.
    MineFatal,
}

/// What an open action did.
#[derive(Clone, Copy, Debug, PartialEq, Eq, Structural)]
pub enum Outcome {
    NoOp,
    Revealed,
    MineHit,
    Win,
}

/// A minesweeper field: the board, its mine count, and the state of the round.
pub struct Msweeper {
    mine_num: usize,
    started: bool,
    opened_num: usize,
    fatal: Option<Point<usize>>,
    board: Vec<Vec<Space>>,
}

/// The board cell that a screen position points at, if any.
pub open spec fn press_target(g: Grid, cursor_x: int, cursor_y: int) -> Option<(int, int)> {
    if cursor_x < BOARD_OFFSET_X + 1 || cursor_y < BOARD_OFFSET_Y {
        None
    } else if in_bounds(g, (cursor_x - (BOARD_OFFSET_X + 1)) / 2, cursor_y - BOARD_OFFSET_Y) {
        Some(((cursor_x - (BOARD_OFFSET_X + 1)) / 2, cursor_y - BOARD_OFFSET_Y))
    } else {
        None
    }
}

/// The board after toggling the flag at `(x, y)`.
pub open spec fn flag_result(g: Grid, x: int, y: int) -> Grid {
    if !in_bounds(g, x, y) {
        g
    } else {
        match g[y][x].state {
            SpaceState::Unopened => set_cell(
                g,
                x,
                y,
                Space { state: SpaceState::Flag, stype: g[y][x].stype },
            ),
            SpaceState::Flag => set_cell(
                g,
                x,
                y,
                Space { state: SpaceState::Unopened, stype: g[y][x].stype },
            ),
            SpaceState::Opened => g,
        }
    }
}

/// Every cell unopened and empty.
pub open spec fn is_fresh_grid(g: Grid) -> bool {
    forall|y: int, x: int| in_bounds(g, x, y) ==> #[trigger] g[y][x] == fresh_space()
}

/// A board of `w` columns and `h` rows of unopened empty cells.
pub open spec fn fresh_grid(w: int, h: int) -> Grid {
    Seq::new(h as nat, |y: int| Seq::new(w as nat, |x: int| fresh_space()))
}

impl Msweeper {
    /// The board as rows of cells.
    pub closed spec fn grid(self) -> Grid {
        Seq::new(self.board@.len(), |i: int| self.board@[i]@)
    }

    pub closed spec fn mines(self) -> nat {
        self.mine_num as nat
    }

    /// Whether the mines have been placed in this round.
    pub closed spec fn is_started(self) -> bool {
        self.started
    }

    /// How many cells are opened.
    pub closed spec fn opened(self) -> nat {
        self.opened_num as nat
    }

    /// The mine that lost the round, if one did.
    pub closed spec fn fatal_cell(self) -> Option<(int, int)> {
        match self.fatal {
            Some(p) => Some((p.x as int, p.y as int)),
            None => None,
        }
    }

    pub open spec fn width_spec(self) -> int {
        grid_width(self.grid())
    }

    pub open spec fn height_spec(self) -> int {
        grid_height(self.grid())
    }

    pub open spec fn total(self) -> int {
        self.width_spec() * self.height_spec()
    }

    /// No opened cell holds a mine.
    pub open spec fn no_mine_opened(self) -> bool {
        forall|y: int, x: int|
            in_bounds(self.grid(), x, y) ==> !(#[trigger] self.grid()[y][x].state
                == SpaceState::Opened && self.grid()[y][x].stype == SpaceType::Mine)
    }

    /// Before the first open every cell is empty and none is opened.
    pub open spec fn is_unplaced_grid(self) -> bool {
        forall|y: int, x: int|
            in_bounds(self.grid(), x, y) ==> #[trigger] self.grid()[y][x].stype == SpaceType::Empty
                && self.grid()[y][x].state != SpaceState::Opened
    }

    /// What an open action on the board cell `(x, y)` owes: off the board,
    /// nothing; on a placed board, `played`; on a board not yet placed, `played`
    /// on some placement around `(x, y)`, after which the round has started.
    /// Throughout, the opened counter counts the opened cells and never falls.
    pub open spec fn open_post(before: Msweeper, after: Msweeper, x: int, y: int, r: Outcome) -> bool {
        &&& after.mines() == before.mines()
        &&& after.opened() == opened_count(after.grid())
        &&& after.opened() >= before.opened()
        &&& !in_bounds(before.grid(), x, y) ==> {
            &&& r == Outcome::NoOp
            &&& after.grid() == before.grid()
            &&& after.is_started() == before.is_started()
            &&& after.opened() == before.opened()
            &&& after.fatal_cell() == before.fatal_cell()
        }
        &&& in_bounds(before.grid(), x, y) ==> after.is_started()
        &&& in_bounds(before.grid(), x, y) && before.is_started() ==> (after.grid(), after.fatal_cell(), r)
            == played(before.grid(), before.fatal_cell(), x, y, before.mines() as int)
        &&& in_bounds(before.grid(), x, y) && !before.is_started() ==> exists|g1: Grid|
            #[trigger] placed_around(before.grid(), g1, x, y, before.mines())
                && (after.grid(), after.fatal_cell(), r) == played(
                g1,
                before.fatal_cell(),
                x,
                y,
                before.mines() as int,
            )
    }

    /// What `clean` owes: the same board shape and mine count, every cell
    /// unopened and empty, nothing opened, and the mines to be placed again.
    pub open spec fn cleaned(before: Msweeper, after: Msweeper) -> bool {
        &&& after.grid() == fresh_grid(before.width_spec(), before.height_spec())
        &&& after.mines() == before.mines()
        &&& !after.is_started()
        &&& after.opened() == 0
        &&& after.fatal_cell().is_none()
    }

    pub closed spec fn wf(self) -> bool {
        &&& wf_grid(self.grid())
        &&& self.total() <= isize::MAX
        &&& self.mine_num < self.total()
        &&& self.opened_num == opened_count(self.grid())
        &&& self.started ==> mine_count(self.grid()) == self.mine_num
        &&& !self.started ==> self.is_unplaced_grid() && self.fatal.is_none() && self.opened_num == 0
        &&& self.fatal.is_none() ==> self.no_mine_opened()
        &&& self.fatal matches Some(p) ==> in_bounds(self.grid(), p.x as int, p.y as int)
    }

    /// What a well-formed field guarantees: a board with rows of equal length
    /// that fits in memory, fewer mines than cells, the opened counter equal to
    /// the number of opened cells, and, once placed, exactly `mines()` mines;
    /// before placement nothing is opened.
    pub proof fn lemma_wf_facts(self)
        requires
            self.wf(),
        ensures
            wf_grid(self.grid()),
            self.total() <= isize::MAX,
            self.mines() < self.total(),
            self.opened() == opened_count(self.grid()),
            self.is_started() ==> mine_count(self.grid()) == self.mines(),
            !self.is_started() ==> self.opened() == 0 && self.is_unplaced_grid(),
    {
    }

    /// Each side of a well-formed board is at most its number of cells.
    proof fn lemma_dims(self)
        requires
            wf_grid(self.grid()),
            self.total() <= isize::MAX,
        ensures
            1 <= self.width_spec() <= self.total(),
            1 <= self.height_spec() <= self.total(),
            self.total() <= isize::MAX,
    {
        let w = self.width_spec();
        let h = self.height_spec();
        assert(w <= w * h && h <= w * h) by (nonlinear_arith)
            requires
                w >= 1,
                h >= 1,
        ;
    }

    /// No more cells are opened than the board holds.
    proof fn lemma_opened_le_total(self)
        requires
            wf_grid(self.grid()),
        ensures
            opened_count(self.grid()) <= self.total(),
    {
        let g = self.grid();
        let w = grid_width(g);
        let h = grid_height(g);
        lemma_grid_count_le(g, w, opened_pred());
        assert(h * w == w * h) by (nonlinear_arith);
    }

    /// Number of columns.
    pub fn width(&self) -> (r: usize)
        requires
            wf_grid(self.grid()),
        ensures
            r == self.width_spec(),
    {
        if self.height() == 0 {
            return 0;
        }
        self.board[0].len()
    }

    /// Number of rows.
    pub fn height(&self) -> (r: usize)
        ensures
            r == self.height_spec(),
    {
        self.board.len()
    }

    /// The cell at `(x, y)`; off the board, an unopened empty cell.
    pub fn get(&self, x: usize, y: usize) -> (r: Space)
        requires
            wf_grid(self.grid()),
        ensures
            r == if in_bounds(self.grid(), x as int, y as int) {
                self.grid()[y as int][x as int]
            } else {
                fresh_space()
            },
    {
        if y < self.board.len() && x < self.board[y].len() {
            proof {
                assert(self.grid()[y as int] == self.board@[y as int]@);
            }
            self.board[y][x]
        } else {
            Space { state: SpaceState::Unopened, stype: SpaceType::Empty }
        }
    }

    /// Replaces the cell at `(x, y)`.
    fn set_space(&mut self, x: usize, y: usize, s: Space)
        requires
            in_bounds(old(self).grid(), x as int, y as int),
            wf_grid(old(self).grid()),
        ensures
            final(self).grid() == set_cell(old(self).grid(), x as int, y as int, s),
            final(self).mine_num == old(self).mine_num,
            final(self).started == old(self).started,
            final(self).opened_num == old(self).opened_num,
            final(self).fatal == old(self).fatal,
    {
        proof {
            assert(old(self).grid()[y as int] == old(self).board@[y as int]@);
        }
        self.board[y][x] = s;
        proof {
            assert(self.grid() =~= set_cell(old(self).grid(), x as int, y as int, s));
        }
    }

    /// Whether `p` lies on the board.
    fn is_inbound(&self, p: &Point<isize>) -> (r: bool)
        requires
            self.wf(),
        ensures
            r == in_bounds(self.grid(), p.x as int, p.y as int),
    {
        !((p.x < 0) || (p.y < 0) || (p.x as usize >= self.width()) || (p.y as usize
            >= self.height()))
    }

    /// 1 when `p` lies on the board and its cell holds what `probe` looks for, else 0.
    fn probe_at(&self, p: &Point<isize>, probe: Probe) -> (r: usize)
        requires
            self.wf(),
        ensures
            r == if probe_hit(self.grid(), p.x as int, p.y as int, probe) {
                1usize
            } else {
                0usize
            },
    {
        if !self.is_inbound(p) {
            return 0;
        }
        let q = p.itou();
        let s = self.get(q.x, q.y);
        match probe {
            Probe::Mine => if s.stype == SpaceType::Mine {
                1
            } else {
                0
            },
            Probe::Flag => if s.state == SpaceState::Flag {
                1
            } else {
                0
            },
        }
    }

    /// How many of the eight neighbours of `p` hold what `probe` looks for.
    fn calc_some(&self, p: &Point<isize>, probe: Probe) -> (r: usize)
        requires
            self.wf(),
            isize::MIN < p.x < isize::MAX,
            isize::MIN < p.y < isize::MAX,
        ensures
            r == adj_count(self.grid(), p.x as int, p.y as int, 8, probe),
    {
        let mut num: usize = 0;
        let dirs = Point::pos8_iter();
        for pos8 in dirs.start..dirs.end
            invariant
                dirs.start == 0,
                dirs.end == 8,
                self.wf(),
                isize::MIN < p.x < isize::MAX,
                isize::MIN < p.y < isize::MAX,
                num == adj_count(self.grid(), p.x as int, p.y as int, pos8 as int, probe),
                num <= pos8,
        {
            num = num + self.probe_at(&p.get_pos_8(pos8), probe);
        }
        num
    }

    /// How many mines surround `p`.
    fn calc_mnum(&self, p: &Point<isize>) -> (r: usize)
        requires
            self.wf(),
            isize::MIN < p.x < isize::MAX,
            isize::MIN < p.y < isize::MAX,
        ensures
            r == adj_mines(self.grid(), p.x as int, p.y as int),
    {
        self.calc_some(p, Probe::Mine)
    }

    /// How many flags surround `p`.
    fn calc_flag(&self, p: &Point<isize>) -> (r: usize)
        requires
            self.wf(),
            isize::MIN < p.x < isize::MAX,
            isize::MIN < p.y < isize::MAX,
        ensures
            r == adj_flags(self.grid(), p.x as int, p.y as int),
    {
        self.calc_some(p, Probe::Flag)
    }

    /// The board cell under the screen position, if the position is on the board.
    pub fn board_press_pos(&self, cursor_x: usize, cursor_y: usize) -> (r: Option<Point<usize>>)
        requires
            self.wf(),
        ensures
            match press_target(self.grid(), cursor_x as int, cursor_y as int) {
                Some(t) => r matches Some(p) && p.x == t.0 && p.y == t.1,
                None => r.is_none(),
            },
    {
        if cursor_x < BOARD_OFFSET_X + 1 || cursor_y < BOARD_OFFSET_Y {
            return None;
        }
        let p = Point::<usize> {
            x: (cursor_x - (BOARD_OFFSET_X + 1)) / 2,
            y: cursor_y - BOARD_OFFSET_Y,
        };
        if p.x < self.width() && p.y < self.height() {
            Some(p)
        } else {
            None
        }
    }

    /// Toggles the flag on the board cell `(x, y)`: unopened becomes flagged and
    /// flagged becomes unopened; an opened cell or a position off the board is left alone.
    pub fn flag_cell(&mut self, x: usize, y: usize)
        requires
            old(self).wf(),
        ensures
            final(self).wf(),
            final(self).grid() == flag_result(old(self).grid(), x as int, y as int),
            final(self).mines() == old(self).mines(),
            final(self).is_started() == old(self).is_started(),
            final(self).opened() == old(self).opened(),
            final(self).fatal_cell() == old(self).fatal_cell(),
    {
        if x >= self.width() || y >= self.height() {
            return;
        }
        let s = self.get(x, y);
        let ghost g = self.grid();
        let new_state = match s.state {
            SpaceState::Unopened => SpaceState::Flag,
            SpaceState::Flag => SpaceState::Unopened,
            SpaceState::Opened => {
                return;
            },
        };
        let ns = Space { state: new_state, stype: s.stype };
        self.set_space(x, y, ns);
        proof {
            lemma_grid_count_set(g, x as int, y as int, ns, opened_pred());
            lemma_grid_count_set(g, x as int, y as int, ns, mine_pred());
            assert forall|yy: int| 0 <= yy < self.grid().len() implies #[trigger] self.grid()[yy].len() == g[yy].len() by {}
        }
    }

    /// Toggles the flag on the cell under the screen position, if there is one.
    pub fn flag(&mut self, cursor_x: usize, cursor_y: usize)
        requires
            old(self).wf(),
        ensures
            final(self).wf(),
            final(self).grid() == match press_target(old(self).grid(), cursor_x as int, cursor_y as int) {
                Some(t) => flag_result(old(self).grid(), t.0, t.1),
                None => old(self).grid(),
            },
            final(self).mines() == old(self).mines(),
            final(self).is_started() == old(self).is_started(),
            final(self).opened() == old(self).opened(),
            final(self).fatal_cell() == old(self).fatal_cell(),
    {
        let result = self.board_press_pos(cursor_x, cursor_y);
        match result {
            Some(p) => self.flag_cell(p.x, p.y),
            None => {},
        }
    }

    /// Whether every cell without a mine has been opened.
    pub fn is_clear(&self) -> (r: bool)
        requires
            self.wf(),
        ensures
            r == (self.opened() >= self.total() - self.mines()),
    {
        let remain_space_num = self.width() * self.height() - self.mine_num;
        remain_space_num <= self.opened_num
    }

    /// Sets every cell back to unopened and empty.
    fn clean_board(&mut self)
        requires
            wf_grid(old(self).grid()),
        ensures
            final(self).grid() == fresh_grid(old(self).width_spec(), old(self).height_spec()),
            final(self).mine_num == old(self).mine_num,
            final(self).started == old(self).started,
            final(self).opened_num == old(self).opened_num,
            final(self).fatal == old(self).fatal,
    {
        let ghost g0 = self.grid();
        let h = self.height();
        let w = self.board[0].len();
        proof {
            assert(g0[0] == self.board@[0]@);
        }
        let mut y: usize = 0;
        while y < h
            invariant
                y <= h,
                h == g0.len(),
                w == grid_width(g0),
                wf_grid(g0),
                self.grid().len() == h,
                forall|yy: int| 0 <= yy < h ==> #[trigger] self.grid()[yy].len() == w,
                forall|yy: int, xx: int|
                    0 <= yy < y && 0 <= xx < w ==> #[trigger] self.grid()[yy][xx] == fresh_space(),
                self.mine_num == old(self).mine_num,
                self.started == old(self).started,
                self.opened_num == old(self).opened_num,
                self.fatal == old(self).fatal,
            decreases h - y,
        {
            let mut x: usize = 0;
            while x < w
                invariant
                    x <= w,
                    y < h,
                    h == g0.len(),
                    w == grid_width(g0),
                    wf_grid(g0),
                    self.grid().len() == h,
                    forall|yy: int| 0 <= yy < h ==> #[trigger] self.grid()[yy].len() == w,
                    forall|yy: int, xx: int|
                        ((0 <= yy < y && 0 <= xx < w) || (yy == y && 0 <= xx < x))
                            ==> #[trigger] self.grid()[yy][xx] == fresh_space(),
                    self.mine_num == old(self).mine_num,
                    self.started == old(self).started,
                    self.opened_num == old(self).opened_num,
                    self.fatal == old(self).fatal,
                decreases w - x,
            {
                proof {
                    assert(wf_grid(self.grid()));
                }
                self.set_space(x, y, Space { state: SpaceState::Unopened, stype: SpaceType::Empty });
                x = x + 1;
            }
            y = y + 1;
        }
        proof {
            assert(self.grid() =~= fresh_grid(w as int, h as int)) by {
                assert forall|yy: int| 0 <= yy < h implies #[trigger] self.grid()[yy] =~= fresh_grid(w as int, h as int)[yy] by {}
            }
        }
    }

    /// Starts a new round on the same board: every cell unopened and empty,
    /// nothing opened, and the mines placed again on the next open.
    pub fn clean(&mut self)
        requires
            old(self).wf(),
        ensures
            final(self).wf(),
            Self::cleaned(*old(self), *final(self)),
    {
        self.started = false;
        self.opened_num = 0;
        self.fatal = None;
        self.clean_board();
        proof {
            lemma_grid_count_all(self.grid(), self.width_spec(), opened_pred(), false);
        }
    }

    /// Lays out the contents around `p`, in reading order: of the cells other
    /// than `p`, the first `w * h - 1 - mine_num` become empty and the rest mines.
    /// No cell's state changes.
    fn place_mine(&mut self, p: &Point<usize>)
        requires
            wf_grid(old(self).grid()),
            old(self).total() <= isize::MAX,
            old(self).mine_num < old(self).total(),
            old(self).is_unplaced_grid(),
            in_bounds(old(self).grid(), p.x as int, p.y as int),
        ensures
            placed_around(old(self).grid(), final(self).grid(), p.x as int, p.y as int, old(self).mine_num as nat),
            forall|y: int, x: int|
                in_bounds(final(self).grid(), x, y) && !(x == p.x && y == p.y) ==> #[trigger] final(self).grid()[y][x].stype
                    == placed_type(
                    placement_rank(x, y, p.x as int, p.y as int, old(self).width_spec()),
                    old(self).total() - 1 - old(self).mine_num,
                ),
            wf_grid(final(self).grid()),
            final(self).mine_num == old(self).mine_num,
            final(self).started == old(self).started,
            final(self).opened_num == old(self).opened_num,
            final(self).fatal == old(self).fatal,
    {
        let ghost g0 = self.grid();
        proof {
            self.lemma_dims();
            lemma_grid_count_all(g0, grid_width(g0), mine_pred(), false);
        }
        let w = self.width();
        let h = self.height();
        let empty_cells = w * h - 1 - self.mine_num;
        let mut visited: usize = 0;
        let mut y: usize = 0;
        while y < h
            invariant
                y <= h,
                h == g0.len(),
                w == grid_width(g0),
                wf_grid(g0),
                w * h <= isize::MAX,
                empty_cells + self.mine_num + 1 == w * h,
                forall|yy: int, xx: int|
                    in_bounds(g0, xx, yy) ==> #[trigger] g0[yy][xx].stype == SpaceType::Empty,
                p.x < w,
                p.y < h,
                self.grid().len() == h,
                forall|yy: int| 0 <= yy < h ==> #[trigger] self.grid()[yy].len() == w,
                visited + (if row_major_before(p.x as int, p.y as int, 0, y as int) { 1int } else { 0int }) == y * w,
                forall|yy: int, xx: int|
                    0 <= yy < h && 0 <= xx < w ==> {
                        &&& #[trigger] self.grid()[yy][xx].state == g0[yy][xx].state
                        &&& if xx == p.x && yy == p.y {
                            self.grid()[yy][xx] == g0[yy][xx]
                        } else if row_major_before(xx, yy, 0, y as int) {
                            self.grid()[yy][xx].stype == placed_type(
                                placement_rank(xx, yy, p.x as int, p.y as int, w as int),
                                empty_cells as int,
                            )
                        } else {
                            self.grid()[yy][xx] == g0[yy][xx]
                        }
                    },
                mine_count(self.grid()) == if visited <= empty_cells { 0 } else { visited - empty_cells },
                self.mine_num == old(self).mine_num,
                self.started == old(self).started,
                self.opened_num == old(self).opened_num,
                self.fatal == old(self).fatal,
            decreases h - y,
        {
            let mut x: usize = 0;
            while x < w
                invariant
                    x <= w,
                    y < h,
                    h == g0.len(),
                    w == grid_width(g0),
                    wf_grid(g0),
                    w * h <= isize::MAX,
                    empty_cells + self.mine_num + 1 == w * h,
                    forall|yy: int, xx: int|
                        in_bounds(g0, xx, yy) ==> #[trigger] g0[yy][xx].stype == SpaceType::Empty,
                    p.x < w,
                    p.y < h,
                    self.grid().len() == h,
                    forall|yy: int| 0 <= yy < h ==> #[trigger] self.grid()[yy].len() == w,
                    visited + (if row_major_before(p.x as int, p.y as int, x as int, y as int) { 1int } else { 0int }) == y * w + x,
                    forall|yy: int, xx: int|
                        0 <= yy < h && 0 <= xx < w ==> {
                            &&& #[trigger] self.grid()[yy][xx].state == g0[yy][xx].state
                            &&& if xx == p.x && yy == p.y {
                                self.grid()[yy][xx] == g0[yy][xx]
                            } else if row_major_before(xx, yy, x as int, y as int) {
                                self.grid()[yy][xx].stype == placed_type(
                                    placement_rank(xx, yy, p.x as int, p.y as int, w as int),
                                    empty_cells as int,
                                )
                            } else {
                                self.grid()[yy][xx] == g0[yy][xx]
                            }
                        },
                    mine_count(self.grid()) == if visited <= empty_cells { 0 } else { visited - empty_cells },
                    self.mine_num == old(self).mine_num,
                    self.started == old(self).started,
                    self.opened_num == old(self).opened_num,
                    self.fatal == old(self).fatal,
                decreases w - x,
            {
                if !(p.x == x && p.y == y) {
                    let stype = if visited < empty_cells {
                        SpaceType::Empty
                    } else {
                        SpaceType::Mine
                    };
                    let cur = self.get(x, y);
                    let ns = Space { state: cur.state, stype };
                    proof {
                        lemma_index_bound(w as int, h as int, x as int, y as int);
                        assert(wf_grid(self.grid()));
                        assert(self.grid()[y as int][x as int] == g0[y as int][x as int]);
                        assert(g0[y as int][x as int].stype == SpaceType::Empty);
                        assert(visited == placement_rank(x as int, y as int, p.x as int, p.y as int, w as int));
                        lemma_grid_count_set(self.grid(), x as int, y as int, ns, mine_pred());
                    }
                    self.set_space(x, y, ns);
                    visited = visited + 1;
                }
                x = x + 1;
            }
            proof {
                assert(y * w + w == (y + 1) * w) by (nonlinear_arith);
            }
            y = y + 1;
        }
        proof {
            assert(h * w == w * h) by (nonlinear_arith);
            assert(visited + 1 == w * h);
            assert(g0[p.y as int][p.x as int].stype == SpaceType::Empty);
            let g = self.grid();
            assert(same_shape(g0, g)) by {
                assert forall|yy: int| 0 <= yy < g0.len() implies #[trigger] g0[yy].len() == g[yy].len() by {
                    assert(g0[yy].len() == g0[0].len());
                }
            }
            assert(grid_width(g) == w);
            assert forall|yy: int, xx: int| in_bounds(g, xx, yy) implies #[trigger] g[yy][xx].state == g0[yy][xx].state by {}
            assert(g[p.y as int][p.x as int].state == g0[p.y as int][p.x as int].state);
            assert(g[p.y as int][p.x as int] == g0[p.y as int][p.x as int]);
            assert(mine_count(g) == self.mine_num);
            assert forall|yy: int, xx: int|
                in_bounds(g, xx, yy) && !(xx == p.x && yy == p.y) implies #[trigger] g[yy][xx].stype
                    == placed_type(
                    placement_rank(xx, yy, p.x as int, p.y as int, w as int),
                    empty_cells as int,
                ) by {
                assert(g[yy][xx].state == g0[yy][xx].state);
            }
        }
    }

    /// Exchanges the contents of `(x, y)` and the cell that `draw` picks among
    /// the cells other than `p` (see `swap_target`), keeping every state.
    fn swap_with_draw(&mut self, x: usize, y: usize, p: &Point<usize>, draw: usize)
        requires
            wf_grid(old(self).grid()),
            2 <= old(self).total() <= isize::MAX,
            in_bounds(old(self).grid(), x as int, y as int),
            in_bounds(old(self).grid(), p.x as int, p.y as int),
        ensures
            final(self).grid() == swap_content(
                old(self).grid(),
                x as int,
                y as int,
                swap_target(draw as int, p.x as int, p.y as int, old(self).width_spec(), old(self).height_spec()),
            ),
            ({
                let t = swap_target(draw as int, p.x as int, p.y as int, old(self).width_spec(), old(self).height_spec());
                in_bounds(old(self).grid(), t.0, t.1) && !(t.0 == p.x && t.1 == p.y)
            }),
            wf_grid(final(self).grid()),
            same_shape(old(self).grid(), final(self).grid()),
            forall|yy: int, xx: int|
                in_bounds(old(self).grid(), xx, yy) ==> #[trigger] final(self).grid()[yy][xx].state
                    == old(self).grid()[yy][xx].state,
            mine_count(final(self).grid()) == mine_count(old(self).grid()),
            final(self).mine_num == old(self).mine_num,
            final(self).started == old(self).started,
            final(self).opened_num == old(self).opened_num,
            final(self).fatal == old(self).fatal,
    {
        let ghost g0 = self.grid();
        proof {
            self.lemma_dims();
        }
        let (rand_x, rand_y) = pick_target(draw, p, self.width(), self.height());
        let a = self.get(x, y);
        let b = self.get(rand_x, rand_y);
        self.set_space(x, y, Space { state: a.state, stype: b.stype });
        let ghost g1 = self.grid();
        proof {
            lemma_grid_count_set(g0, x as int, y as int, Space { state: a.state, stype: b.stype }, mine_pred());
            assert(wf_grid(g1));
        }
        let c = self.get(rand_x, rand_y);
        self.set_space(rand_x, rand_y, Space { state: c.state, stype: a.stype });
        proof {
            lemma_grid_count_set(g1, rand_x as int, rand_y as int, Space { state: c.state, stype: a.stype }, mine_pred());
            let g2 = self.grid();
            assert(wf_grid(g2));
            assert forall|yy: int, xx: int| in_bounds(g0, xx, yy) implies #[trigger] g2[yy][xx].state == g0[yy][xx].state by {
                assert(g1[yy][xx].state == g0[yy][xx].state);
            }
        }
    }

    /// Swaps the content of every cell but `p` with that of a cell picked at
    /// random among the cells other than `p`.
    fn randomize(&mut self, p: &Point<usize>)
        requires
            wf_grid(old(self).grid()),
            old(self).total() <= isize::MAX,
            in_bounds(old(self).grid(), p.x as int, p.y as int),
        ensures
            same_shape(old(self).grid(), final(self).grid()),
            wf_grid(final(self).grid()),
            final(self).grid()[p.y as int][p.x as int] == old(self).grid()[p.y as int][p.x as int],
            forall|y: int, x: int|
                in_bounds(old(self).grid(), x, y) ==> #[trigger] final(self).grid()[y][x].state
                    == old(self).grid()[y][x].state,
            mine_count(final(self).grid()) == mine_count(old(self).grid()),
            final(self).mine_num == old(self).mine_num,
            final(self).started == old(self).started,
            final(self).opened_num == old(self).opened_num,
            final(self).fatal == old(self).fatal,
    {
        let ghost g0 = self.grid();
        proof {
            self.lemma_dims();
        }
        let w = self.width();
        let h = self.height();
        if w * h <= 1 {
            return;
        }
        let mut y: usize = 0;
        while y < h
            invariant
                y <= h,
                h == g0.len(),
                w == grid_width(g0),
                wf_grid(g0),
                2 <= w * h <= isize::MAX,
                p.x < w,
                p.y < h,
                wf_grid(self.grid()),
                same_shape(g0, self.grid()),
                self.grid()[p.y as int][p.x as int] == g0[p.y as int][p.x as int],
                forall|yy: int, xx: int|
                    in_bounds(g0, xx, yy) ==> #[trigger] self.grid()[yy][xx].state == g0[yy][xx].state,
                mine_count(self.grid()) == mine_count(g0),
                self.mine_num == old(self).mine_num,
                self.started == old(self).started,
                self.opened_num == old(self).opened_num,
                self.fatal == old(self).fatal,
            decreases h - y,
        {
            let mut x: usize = 0;
            while x < w
                invariant
                    x <= w,
                    y < h,
                    h == g0.len(),
                    w == grid_width(g0),
                    wf_grid(g0),
                    2 <= w * h <= isize::MAX,
                    p.x < w,
                    p.y < h,
                    wf_grid(self.grid()),
                    same_shape(g0, self.grid()),
                    self.grid()[p.y as int][p.x as int] == g0[p.y as int][p.x as int],
                    forall|yy: int, xx: int|
                        in_bounds(g0, xx, yy) ==> #[trigger] self.grid()[yy][xx].state == g0[yy][xx].state,
                    mine_count(self.grid()) == mine_count(g0),
                    self.mine_num == old(self).mine_num,
                    self.started == old(self).started,
                    self.opened_num == old(self).opened_num,
                    self.fatal == old(self).fatal,
                decreases w - x,
            {
                if !(p.x == x && p.y == y) {
                    let ghost g = self.grid();
                    proof {
                        assert(self.grid()[0].len() == w);
                        assert(self.total() == w * h);
                    }
                    self.swap_with_draw(x, y, p, random_usize());
                    proof {
                        let g2 = self.grid();
                        assert forall|yy: int, xx: int| in_bounds(g0, xx, yy) implies #[trigger] g2[yy][xx].state == g0[yy][xx].state by {
                            assert(g2[yy][xx].state == g[yy][xx].state);
                        }
                        assert(g2[p.y as int][p.x as int] == g[p.y as int][p.x as int]);
                        assert forall|yy: int| 0 <= yy < g0.len() implies #[trigger] g2[yy].len() == g0[yy].len() by {
                            assert(g2[yy].len() == g[yy].len());
                        }
                    }
                }
                x = x + 1;
            }
            y = y + 1;
        }
    }

    /// Places the mines around `p` and starts the round.
    fn start(&mut self, p: &Point<usize>)
        requires
            old(self).wf(),
            !old(self).started,
            in_bounds(old(self).grid(), p.x as int, p.y as int),
        ensures
            final(self).wf(),
            final(self).started,
            placed_around(old(self).grid(), final(self).grid(), p.x as int, p.y as int, old(self).mine_num as nat),
            final(self).mine_num == old(self).mine_num,
            final(self).opened_num == 0,
            final(self).fatal.is_none(),
    {
        let ghost g0 = self.grid();
        self.started = true;
        self.place_mine(p);
        let ghost g1 = self.grid();
        self.randomize(p);
        proof {
            let g = self.grid();
            assert(grid_width(g) == grid_width(g0));
            assert forall|yy: int| 0 <= yy < g.len() implies #[trigger] g[yy].len() == grid_width(g) by {
                assert(g1[yy].len() == g0[yy].len());
            }
            lemma_grid_count_all(g0, self.width_spec(), opened_pred(), false);
            lemma_grid_count_all(g, self.width_spec(), opened_pred(), false);
        }
    }

    /// Opens the cell at `(x, y)` and counts it.
    fn set_open(&mut self, x: usize, y: usize)
        requires
            wf_grid(old(self).grid()),
            old(self).total() <= isize::MAX,
            old(self).opened_num == opened_count(old(self).grid()),
            in_bounds(old(self).grid(), x as int, y as int),
            old(self).grid()[y as int][x as int].state != SpaceState::Opened,
        ensures
            final(self).grid() == set_cell(
                old(self).grid(),
                x as int,
                y as int,
                opened_space(old(self).grid()[y as int][x as int]),
            ),
            final(self).opened_num == old(self).opened_num + 1,
            final(self).opened_num == opened_count(final(self).grid()),
            final(self).opened_num <= final(self).total(),
            final(self).width_spec() == old(self).width_spec(),
            final(self).height_spec() == old(self).height_spec(),
            final(self).mine_num == old(self).mine_num,
            final(self).started == old(self).started,
            final(self).fatal == old(self).fatal,
    {
        let s = self.get(x, y);
        let ghost g = self.grid();
        let ns = Space { state: SpaceState::Opened, stype: s.stype };
        proof {
            lemma_grid_count_set(g, x as int, y as int, ns, opened_pred());
            let g2 = set_cell(g, x as int, y as int, ns);
            assert forall|yy: int| 0 <= yy < g2.len() implies #[trigger] g2[yy].len() == grid_width(g) by {}
            lemma_grid_count_le(g2, grid_width(g), opened_pred());
            let w = grid_width(g);
            let h = grid_height(g);
            assert(h * w == w * h) by (nonlinear_arith);
        }
        self.set_space(x, y, ns);
        self.opened_num = self.opened_num + 1;
    }

    /// Pushes every neighbour of `q` that lies on the board.
    fn push_neighbours(&self, q: &Point<usize>, stack: &mut Vec<Point<usize>>)
        requires
            self.wf(),
            in_bounds(self.grid(), q.x as int, q.y as int),
        ensures
            old(stack)@.len() <= final(stack)@.len() <= old(stack)@.len() + 8,
            final(stack)@.subrange(0, old(stack)@.len() as int) == old(stack)@,
            forall|k: int|
                old(stack)@.len() <= k < final(stack)@.len() ==> in_bounds(
                    self.grid(),
                    #[trigger] final(stack)@[k].x as int,
                    final(stack)@[k].y as int,
                ) && is_step((q.x as int, q.y as int), (final(stack)@[k].x as int, final(stack)@[k].y as int)),
            forall|d: int|
                0 <= d < 8 && in_bounds(self.grid(), q.x + #[trigger] dir_dx(d), q.y + dir_dy(d))
                    ==> final(stack)@.contains(
                    Point { x: (q.x + dir_dx(d)) as usize, y: (q.y + dir_dy(d)) as usize },
                ),
    {
        proof {
            self.lemma_dims();
        }
        let qi = q.utoi();
        let dirs = Point::pos8_iter();
        let ghost s0 = stack@;
        for pos8 in dirs.start..dirs.end
            invariant
                dirs.start == 0,
                dirs.end == 8,
                self.wf(),
                in_bounds(self.grid(), q.x as int, q.y as int),
                qi.x == q.x,
                qi.y == q.y,
                self.width_spec() <= isize::MAX,
                self.height_spec() <= isize::MAX,
                s0 == old(stack)@,
                s0.len() <= stack@.len() <= s0.len() + pos8,
                stack@.subrange(0, s0.len() as int) == s0,
                forall|k: int|
                    s0.len() <= k < stack@.len() ==> in_bounds(
                        self.grid(),
                        #[trigger] stack@[k].x as int,
                        stack@[k].y as int,
                    ) && is_step((q.x as int, q.y as int), (stack@[k].x as int, stack@[k].y as int)),
                forall|d: int|
                    0 <= d < pos8 && in_bounds(self.grid(), q.x + #[trigger] dir_dx(d), q.y + dir_dy(d))
                        ==> stack@.contains(
                        Point { x: (q.x + dir_dx(d)) as usize, y: (q.y + dir_dy(d)) as usize },
                    ),
        {
            let n = qi.get_pos_8(pos8);
            if self.is_inbound(&n) {
                let ghost before = stack@;
                let nu = n.itou();
                stack.push(nu);
                proof {
                    assert(stack@.subrange(0, s0.len() as int) =~= s0) by {
                        assert(before.subrange(0, s0.len() as int) == s0);
                    }
                    assert(stack@[stack@.len() - 1] == nu);
                    assert(is_step((q.x as int, q.y as int), (n.x as int, n.y as int)));
                    assert forall|d: int|
                        0 <= d < pos8 + 1 && in_bounds(self.grid(), q.x + #[trigger] dir_dx(d), q.y + dir_dy(d))
                            implies stack@.contains(
                            Point { x: (q.x + dir_dx(d)) as usize, y: (q.y + dir_dy(d)) as usize },
                        ) by {
                        if d < pos8 {
                            let pt = Point { x: (q.x + dir_dx(d)) as usize, y: (q.y + dir_dy(d)) as usize };
                            let i = choose|i: int| 0 <= i < before.len() && before[i] == pt;
                            assert(stack@[i] == pt);
                        } else {
                            assert(stack@[stack@.len() - 1] == Point { x: (q.x + dir_dx(d)) as usize, y: (q.y + dir_dy(d)) as usize });
                        }
                    }
                }
            }
        }
    }

    /// Opens the cell `p` if it is safe and unopened and spreads from every
    /// opened cell with no mine around it to its safe unopened neighbours.
    fn open_flood(&mut self, p: &Point<usize>)
        requires
            old(self).wf(),
            old(self).started,
            in_bounds(old(self).grid(), p.x as int, p.y as int),
        ensures
            final(self).opened_num >= old(self).opened_num,
            final(self).width_spec() == old(self).width_spec(),
            final(self).height_spec() == old(self).height_spec(),
            final(self).wf(),
            final(self).grid() == flood_result(old(self).grid(), p.x as int, p.y as int),
            final(self).mine_num == old(self).mine_num,
            final(self).started == old(self).started,
            final(self).fatal == old(self).fatal,
    {
        let ghost g0 = self.grid();
        let ghost px = p.x as int;
        let ghost py = p.y as int;
        let mut stack: Vec<Point<usize>> = Vec::new();
        stack.push(*p);
        proof {
            assert(stack@[0] == *p);
            if safe_unopened(g0, px, py) {
                lemma_reach_start(g0, px, py);
            }
            self.lemma_opened_le_total();
            assert forall|cy: int, cx: int|
                #![trigger reach(g0, px, py, cx, cy)]
                in_bounds(g0, cx, cy) && reach(g0, px, py, cx, cy) implies self.grid()[cy][cx].state
                    != SpaceState::Opened by {
                lemma_reach_safe(g0, px, py, cx, cy);
            }
        }
        while stack.len() > 0
            invariant
                self.opened_num >= old(self).opened_num,
                self.width_spec() == grid_width(g0),
                self.height_spec() == grid_height(g0),
                self.opened_num <= self.total(),
                self.wf(),
                self.started,
                wf_grid(g0),
                in_bounds(g0, px, py),
                px == p.x,
                py == p.y,
                self.mine_num == old(self).mine_num,
                self.fatal == old(self).fatal,
                same_shape(g0, self.grid()),
                forall|cy: int, cx: int|
                    in_bounds(g0, cx, cy) ==> #[trigger] self.grid()[cy][cx] == g0[cy][cx] || (reach(
                        g0,
                        px,
                        py,
                        cx,
                        cy,
                    ) && self.grid()[cy][cx] == opened_space(g0[cy][cx])),
                safe_unopened(g0, px, py) ==> self.grid()[py][px].state == SpaceState::Opened
                    || stack@.contains(*p),
                forall|cy: int, cx: int|
                    #![trigger reach(g0, px, py, cx, cy)]
                    in_bounds(g0, cx, cy) && reach(g0, px, py, cx, cy) && self.grid()[cy][cx].state
                        == SpaceState::Opened && adj_mines(g0, cx, cy) == 0 ==> neighbours_pending(
                        g0,
                        self.grid(),
                        stack@,
                        cx,
                        cy,
                    ),
                forall|k: int|
                    0 <= k < stack@.len() ==> in_bounds(g0, #[trigger] stack@[k].x as int, stack@[k].y as int)
                        && (safe_unopened(g0, stack@[k].x as int, stack@[k].y as int) ==> reach(
                        g0,
                        px,
                        py,
                        stack@[k].x as int,
                        stack@[k].y as int,
                    )),
            decreases self.total() - self.opened_num, stack@.len(),
        {
            let ghost st0 = stack@;
            let ghost g = self.grid();
            let q = stack.pop().unwrap();
            proof {
                assert(q == st0[st0.len() - 1]);
                assert(stack@ == st0.drop_last());
                assert(in_bounds(g0, q.x as int, q.y as int));
                assert(g[q.y as int][q.x as int] == g0[q.y as int][q.x as int] || g[q.y as int][q.x as int] == opened_space(g0[q.y as int][q.x as int]));
                assert forall|n: Point<usize>| st0.contains(n) && n != q implies stack@.contains(n) by {
                    let i = choose|i: int| 0 <= i < st0.len() && st0[i] == n;
                    assert(stack@[i] == n);
                }
            }
            let s = self.get(q.x, q.y);
            proof {
                assert(in_bounds(g, q.x as int, q.y as int));
                assert(s == g[q.y as int][q.x as int]);
            }
            if s.state == SpaceState::Unopened && s.stype == SpaceType::Empty {
                proof {
                    assert(safe_unopened(g0, q.x as int, q.y as int));
                    assert(reach(g0, px, py, q.x as int, q.y as int));
                    lemma_grid_count_le(g, grid_width(g), opened_pred());
                }
                self.set_open(q.x, q.y);
                let ghost g1 = self.grid();
                proof {
                    assert(same_shape(g0, g1));
                    assert forall|cy: int, cx: int| in_bounds(g1, cx, cy) implies #[trigger] g1[cy][cx].stype == g0[cy][cx].stype by {
                        assert(g[cy][cx].stype == g0[cy][cx].stype);
                    }
                    assert forall|cy: int, cx: int| in_bounds(g0, cx, cy) implies #[trigger] g1[cy][cx].stype == g0[cy][cx].stype by {
                        assert(g[cy][cx].stype == g0[cy][cx].stype);
                    }
                    lemma_adj_mines_same_content(g1, g0, q.x as int, q.y as int, 8);
                    if self.fatal.is_none() {
                        assert forall|y: int, x: int| in_bounds(g1, x, y) implies !(#[trigger] g1[y][x].state
                            == SpaceState::Opened && g1[y][x].stype == SpaceType::Mine) by {
                            if !(x == q.x && y == q.y) {
                                assert(g1[y][x] == g[y][x]);
                                assert(in_bounds(g, x, y));
                            }
                        }
                    }
                    lemma_grid_count_set(g, q.x as int, q.y as int, opened_space(g[q.y as int][q.x as int]), mine_pred());
                }
                let ghost st1 = stack@;
                proof {
                    self.lemma_dims();
                }
                let qi = q.utoi();
                if self.calc_mnum(&qi) == 0 {
                    self.push_neighbours(&q, &mut stack);
                    proof {
                        assert forall|n: Point<usize>| st1.contains(n) implies stack@.contains(n) by {
                            let i = choose|i: int| 0 <= i < st1.len() && st1[i] == n;
                            assert(stack@.subrange(0, st1.len() as int)[i] == n);
                        }
                        assert forall|k: int| 0 <= k < stack@.len() implies in_bounds(g0, #[trigger] stack@[k].x as int, stack@[k].y as int)
                            && (safe_unopened(g0, stack@[k].x as int, stack@[k].y as int) ==> reach(g0, px, py, stack@[k].x as int, stack@[k].y as int)) by {
                            if k < st1.len() {
                                assert(stack@.subrange(0, st1.len() as int)[k] == st1[k]);
                            } else {
                                assert(is_step((q.x as int, q.y as int), (stack@[k].x as int, stack@[k].y as int)));
                                let d = choose|d: int| 0 <= d < 8 && stack@[k].x as int == q.x + dir_dx(d) && stack@[k].y as int == q.y + dir_dy(d);
                                if safe_unopened(g0, stack@[k].x as int, stack@[k].y as int) {
                                    lemma_reach_step(g0, px, py, q.x as int, q.y as int, d);
                                }
                            }
                        }
                    }
                }
                proof {
                    let g2 = self.grid();
                    assert forall|cy: int, cx: int|
                        #![trigger reach(g0, px, py, cx, cy)]
                        in_bounds(g0, cx, cy) && reach(g0, px, py, cx, cy) && g2[cy][cx].state
                            == SpaceState::Opened && adj_mines(g0, cx, cy) == 0 implies neighbours_pending(g0, g2, stack@, cx, cy) by {
                        if cx == q.x && cy == q.y {
                            assert forall|d: int|
                                0 <= d < 8 && safe_unopened(g0, cx + #[trigger] dir_dx(d), cy + dir_dy(d)) implies g2[cy
                                    + dir_dy(d)][cx + dir_dx(d)].state == SpaceState::Opened || stack@.contains(
                                    Point { x: (cx + dir_dx(d)) as usize, y: (cy + dir_dy(d)) as usize }) by {
                                assert(in_bounds(g2, q.x + dir_dx(d), q.y + dir_dy(d)));
                            }
                        } else {
                            assert(g[cy][cx] == g2[cy][cx]);
                            assert(neighbours_pending(g0, g, st0, cx, cy));
                            assert forall|d: int|
                                0 <= d < 8 && safe_unopened(g0, cx + #[trigger] dir_dx(d), cy + dir_dy(d)) implies g2[cy
                                    + dir_dy(d)][cx + dir_dx(d)].state == SpaceState::Opened || stack@.contains(
                                    Point { x: (cx + dir_dx(d)) as usize, y: (cy + dir_dy(d)) as usize }) by {
                                let n = Point { x: (cx + dir_dx(d)) as usize, y: (cy + dir_dy(d)) as usize };
                                if g[cy + dir_dy(d)][cx + dir_dx(d)].state == SpaceState::Opened {
                                } else if n == q {
                                } else {
                                    assert(st0.contains(n));
                                    assert(st1.contains(n));
                                }
                            }
                        }
                    }
                }
            } else {
                proof {
                    assert forall|cy: int, cx: int|
                        #![trigger reach(g0, px, py, cx, cy)]
                        in_bounds(g0, cx, cy) && reach(g0, px, py, cx, cy) && g[cy][cx].state
                            == SpaceState::Opened && adj_mines(g0, cx, cy) == 0 implies neighbours_pending(g0, g, stack@, cx, cy) by {
                        assert(neighbours_pending(g0, g, st0, cx, cy));
                        assert forall|d: int|
                            0 <= d < 8 && safe_unopened(g0, cx + #[trigger] dir_dx(d), cy + dir_dy(d)) implies g[cy
                                + dir_dy(d)][cx + dir_dx(d)].state == SpaceState::Opened || stack@.contains(
                                Point { x: (cx + dir_dx(d)) as usize, y: (cy + dir_dy(d)) as usize }) by {
                            let n = Point { x: (cx + dir_dx(d)) as usize, y: (cy + dir_dy(d)) as usize };
                            let nx = cx + dir_dx(d);
                            let ny = cy + dir_dy(d);
                            assert(g[ny][nx] == g0[ny][nx] || g[ny][nx] == opened_space(g0[ny][nx]));
                            if g[ny][nx].state != SpaceState::Opened {
                                if n == q {
                                    self.lemma_dims();
                                    assert(0 <= nx < grid_width(g0) <= isize::MAX);
                                    assert(0 <= ny < grid_height(g0) <= isize::MAX);
                                    assert(nx == q.x as int && ny == q.y as int);
                                } else {
                                    assert(st0.contains(n));
                                }
                            }
                        }
                    }
                }
            }
        }
        proof {
            let g1 = self.grid();
            assert(stack@.len() == 0);
            assert(!stack@.contains(*p));
            assert forall|cy: int, cx: int|
                #![trigger reach(g0, px, py, cx, cy)]
                in_bounds(g0, cx, cy) && reach(g0, px, py, cx, cy) && g1[cy][cx].state
                    == SpaceState::Opened && adj_mines(g0, cx, cy) == 0 implies neighbours_opened(g0, g1, cx, cy) by {
                assert(neighbours_pending(g0, g1, stack@, cx, cy));
                assert forall|d: int|
                    0 <= d < 8 && safe_unopened(g0, cx + #[trigger] dir_dx(d), cy + dir_dy(d)) implies g1[cy
                        + dir_dy(d)][cx + dir_dx(d)].state == SpaceState::Opened by {
                    let n = Point { x: (cx + dir_dx(d)) as usize, y: (cy + dir_dy(d)) as usize };
                    assert(!stack@.contains(n));
                }
            }
            assert(flood_closed(g0, g1, px, py));
            lemma_flood_unique(g0, g1, px, py);
        }
    }

    /// Opens every cell, as when a mine is hit, and remembers `p` as the fatal mine.
    fn open_all(&mut self, p: &Point<usize>)
        requires
            old(self).wf(),
            old(self).started,
            in_bounds(old(self).grid(), p.x as int, p.y as int),
        ensures
            final(self).opened_num >= old(self).opened_num,
            final(self).width_spec() == old(self).width_spec(),
            final(self).height_spec() == old(self).height_spec(),
            final(self).wf(),
            final(self).grid() == all_opened(old(self).grid()),
            final(self).fatal == Some(*p),
            final(self).mine_num == old(self).mine_num,
            final(self).started == old(self).started,
    {
        let ghost g0 = self.grid();
        proof {
            self.lemma_dims();
        }
        let w = self.width();
        let h = self.height();
        self.fatal = Some(*p);
        let mut y: usize = 0;
        while y < h
            invariant
                self.opened_num >= old(self).opened_num,
                y <= h,
                h == g0.len(),
                w == grid_width(g0),
                wf_grid(g0),
                w * h <= isize::MAX,
                in_bounds(g0, p.x as int, p.y as int),
                self.grid().len() == h,
                forall|yy: int| 0 <= yy < h ==> #[trigger] self.grid()[yy].len() == w,
                forall|yy: int, xx: int|
                    0 <= yy < h && 0 <= xx < w ==> #[trigger] self.grid()[yy][xx] == if row_major_before(xx, yy, 0, y as int) {
                        opened_space(g0[yy][xx])
                    } else {
                        g0[yy][xx]
                    },
                self.opened_num == opened_count(self.grid()),
                mine_count(self.grid()) == mine_count(g0),
                self.mine_num == old(self).mine_num,
                self.started == old(self).started,
                self.fatal == Some(*p),
            decreases h - y,
        {
            let mut x: usize = 0;
            while x < w
                invariant
                    self.opened_num >= old(self).opened_num,
                    x <= w,
                    y < h,
                    h == g0.len(),
                    w == grid_width(g0),
                    wf_grid(g0),
                    w * h <= isize::MAX,
                    in_bounds(g0, p.x as int, p.y as int),
                    self.grid().len() == h,
                    forall|yy: int| 0 <= yy < h ==> #[trigger] self.grid()[yy].len() == w,
                    forall|yy: int, xx: int|
                        0 <= yy < h && 0 <= xx < w ==> #[trigger] self.grid()[yy][xx] == if row_major_before(xx, yy, x as int, y as int) {
                            opened_space(g0[yy][xx])
                        } else {
                            g0[yy][xx]
                        },
                    self.opened_num == opened_count(self.grid()),
                    mine_count(self.grid()) == mine_count(g0),
                    self.mine_num == old(self).mine_num,
                    self.started == old(self).started,
                    self.fatal == Some(*p),
                decreases w - x,
            {
                proof {
                    assert(wf_grid(self.grid()));
                    assert(self.total() == w * h) by {
                        assert(self.grid()[0].len() == w);
                    }
                }
                let s = self.get(x, y);
                if s.state != SpaceState::Opened {
                    let ghost g = self.grid();
                    self.set_open(x, y);
                    proof {
                        lemma_grid_count_set(g, x as int, y as int, opened_space(g[y as int][x as int]), mine_pred());
                    }
                } else {
                    proof {
                        assert(s == opened_space(g0[y as int][x as int]));
                    }
                }
                x = x + 1;
            }
            y = y + 1;
        }
        proof {
            let g = self.grid();
            let a = all_opened(g0);
            assert forall|yy: int| 0 <= yy < h implies #[trigger] g[yy] =~= a[yy] by {
                assert forall|xx: int| 0 <= xx < w implies #[trigger] g[yy][xx] == a[yy][xx] by {
                    assert(g0[yy].len() == w);
                }
            }
            assert(g =~= a);
            self.lemma_opened_le_total();
        }
    }

    /// Opens the single cell `p`: off the board or flagged, nothing; a mine
    /// loses the round; otherwise the reveal spreads from it. Whether a mine was hit.
    fn open_1(&mut self, p_i: &Point<isize>) -> (r: bool)
        requires
            old(self).wf(),
            old(self).started,
        ensures
            final(self).opened_num >= old(self).opened_num,
            final(self).width_spec() == old(self).width_spec(),
            final(self).height_spec() == old(self).height_spec(),
            final(self).wf(),
            final(self).grid() == open_one_result(old(self).grid(), p_i.x as int, p_i.y as int).0,
            r == open_one_result(old(self).grid(), p_i.x as int, p_i.y as int).1.is_some(),
            final(self).fatal_cell() == if r {
                open_one_result(old(self).grid(), p_i.x as int, p_i.y as int).1
            } else {
                old(self).fatal_cell()
            },
            final(self).mine_num == old(self).mine_num,
            final(self).started,
    {
        if !self.is_inbound(p_i) {
            return false;
        }
        let p_u = p_i.itou();
        let s = self.get(p_u.x, p_u.y);
        if s.state == SpaceState::Flag {
            return false;
        }
        if s.stype == SpaceType::Mine {
            self.open_all(&p_u);
            return true;
        }
        self.open_flood(&p_u);
        false
    }

    /// Chord opening around the opened cell `p`: when as many flags as mines
    /// surround it, opens each neighbour in turn and stops at the first mine.
    /// Whether a mine was hit.
    fn open_8(&mut self, p: &Point<isize>) -> (r: bool)
        requires
            old(self).wf(),
            old(self).started,
            in_bounds(old(self).grid(), p.x as int, p.y as int),
        ensures
            final(self).opened_num >= old(self).opened_num,
            final(self).width_spec() == old(self).width_spec(),
            final(self).height_spec() == old(self).height_spec(),
            final(self).wf(),
            adj_mines(old(self).grid(), p.x as int, p.y as int) != adj_flags(old(self).grid(), p.x as int, p.y as int) ==> {
                &&& final(self).grid() == old(self).grid()
                &&& !r
                &&& final(self).fatal_cell() == old(self).fatal_cell()
            },
            adj_mines(old(self).grid(), p.x as int, p.y as int) == adj_flags(old(self).grid(), p.x as int, p.y as int) ==> {
                &&& final(self).grid() == chord_result(old(self).grid(), p.x as int, p.y as int, 8).0
                &&& r == chord_result(old(self).grid(), p.x as int, p.y as int, 8).1.is_some()
                &&& final(self).fatal_cell() == if r {
                    chord_result(old(self).grid(), p.x as int, p.y as int, 8).1
                } else {
                    old(self).fatal_cell()
                }
            },
            final(self).mine_num == old(self).mine_num,
            final(self).started,
    {
        let ghost g0 = self.grid();
        proof {
            self.lemma_dims();
        }
        if self.calc_mnum(p) != self.calc_flag(p) {
            return false;
        }
        let mut rv = false;
        let dirs = Point::pos8_iter();
        for pos8 in dirs.start..dirs.end
            invariant
                self.opened_num >= old(self).opened_num,
                dirs.start == 0,
                dirs.end == 8,
                self.wf(),
                self.started,
                self.mine_num == old(self).mine_num,
                in_bounds(g0, p.x as int, p.y as int),
                grid_width(g0) <= isize::MAX,
                grid_height(g0) <= isize::MAX,
                self.width_spec() == grid_width(g0),
                self.height_spec() == grid_height(g0),
                self.grid() == chord_result(g0, p.x as int, p.y as int, pos8 as int).0,
                rv == chord_result(g0, p.x as int, p.y as int, pos8 as int).1.is_some(),
                self.fatal_cell() == if rv {
                    chord_result(g0, p.x as int, p.y as int, pos8 as int).1
                } else {
                    old(self).fatal_cell()
                },
        {
            if !rv {
                rv = self.open_1(&p.get_pos_8(pos8));
            }
        }
        rv
    }

    /// An open action on the cell `p` of a placed board.
    fn open_placed(&mut self, p: &Point<usize>) -> (r: Outcome)
        requires
            old(self).wf(),
            old(self).started,
            in_bounds(old(self).grid(), p.x as int, p.y as int),
        ensures
            final(self).opened_num >= old(self).opened_num,
            final(self).width_spec() == old(self).width_spec(),
            final(self).height_spec() == old(self).height_spec(),
            final(self).wf(),
            (final(self).grid(), final(self).fatal_cell(), r) == played(
                old(self).grid(),
                old(self).fatal_cell(),
                p.x as int,
                p.y as int,
                old(self).mine_num as int,
            ),
            final(self).mine_num == old(self).mine_num,
            final(self).started,
    {
        proof {
            self.lemma_dims();
        }
        let p_i = p.utoi();
        let s = self.get(p.x, p.y);
        let hit = match s.state {
            SpaceState::Flag => {
                return Outcome::NoOp;
            },
            SpaceState::Unopened => self.open_1(&p_i),
            SpaceState::Opened => {
                if self.calc_mnum(&p_i) != self.calc_flag(&p_i) {
                    return Outcome::NoOp;
                }
                self.open_8(&p_i)
            },
        };
        if hit {
            Outcome::MineHit
        } else if self.is_clear() {
            Outcome::Win
        } else {
            Outcome::Revealed
        }
    }

    /// An open action on the board cell `(x, y)`. The first one in a round
    /// places the mines around `(x, y)`, so it never hits a mine. An unopened
    /// cell is opened and the reveal spreads; an opened cell with as many flags
    /// as mines around it has its neighbours opened; a flagged cell is left alone.
    pub fn open_cell(&mut self, x: usize, y: usize) -> (r: Outcome)
        requires
            old(self).wf(),
        ensures
            final(self).wf(),
            Self::open_post(*old(self), *final(self), x as int, y as int, r),
    {
        if x >= self.width() || y >= self.height() {
            return Outcome::NoOp;
        }
        let p = Point::<usize> { x, y };
        if !self.started {
            let ghost g0 = self.grid();
            self.start(&p);
            let ghost g1 = self.grid();
            let r = self.open_placed(&p);
            proof {
                assert(placed_around(g0, g1, x as int, y as int, old(self).mines()));
            }
            r
        } else {
            self.open_placed(&p)
        }
    }

    /// An open action on the cell under the screen position; whether it hit a mine.
    pub fn open(&mut self, cursor_x: usize, cursor_y: usize) -> (r: bool)
        requires
            old(self).wf(),
        ensures
            final(self).wf(),
            match press_target(old(self).grid(), cursor_x as int, cursor_y as int) {
                Some(t) => exists|o: Outcome|
                    Self::open_post(*old(self), *final(self), t.0, t.1, o) && r == (o
                        == Outcome::MineHit),
                None => !r && *final(self) == *old(self),
            },
    {
        let result = self.board_press_pos(cursor_x, cursor_y);
        match result {
            Some(p) => {
                let o = self.open_cell(p.x, p.y);
                o == Outcome::MineHit
            },
            None => false,
        }
    }

    /// What a renderer shows for the cell `(x, y)`.
    pub fn visual(&self, x: usize, y: usize) -> (r: Visual)
        requires
            self.wf(),
        ensures
            r == visual_of(self.grid(), self.fatal_cell(), x as int, y as int),
    {
        if x >= self.width() || y >= self.height() {
            return Visual::Unopened;
        }
        let s = self.get(x, y);
        match s.state {
            SpaceState::Unopened => Visual::Unopened,
            SpaceState::Flag => Visual::Flagged,
            SpaceState::Opened => {
                if s.stype == SpaceType::Mine {
                    let fatal = match self.fatal {
                        Some(f) => f.x == x && f.y == y,
                        None => false,
                    };
                    if fatal {
                        Visual::MineFatal
                    } else {
                        Visual::Mine
                    }
                } else {
                    proof {
                        self.lemma_dims();
                    }
                    let n = self.calc_mnum(&Point::<usize> { x, y }.utoi());
                    Visual::Empty(n)
                }
            },
        }
    }

    /// What a renderer shows for every cell, row by row.
    pub fn visuals(&self) -> (r: Vec<Vec<Visual>>)
        requires
            self.wf(),
        ensures
            r@.len() == self.grid().len(),
            forall|y: int| 0 <= y < r@.len() ==> #[trigger] r@[y]@ == visual_grid(self.grid(), self.fatal_cell())[y],
    {
        let ghost vg = visual_grid(self.grid(), self.fatal_cell());
        proof {
            self.lemma_dims();
        }
        let w = self.width();
        let h = self.height();
        let mut r: Vec<Vec<Visual>> = Vec::new();
        let mut y: usize = 0;
        while y < h
            invariant
                self.wf(),
                y <= h,
                h == self.grid().len(),
                w == grid_width(self.grid()),
                vg == visual_grid(self.grid(), self.fatal_cell()),
                r@.len() == y,
                forall|yy: int| 0 <= yy < y ==> #[trigger] r@[yy]@ == vg[yy],
            decreases h - y,
        {
            let mut row: Vec<Visual> = Vec::new();
            let mut x: usize = 0;
            while x < w
                invariant
                    self.wf(),
                    x <= w,
                    y < h,
                    h == self.grid().len(),
                    w == grid_width(self.grid()),
                    vg == visual_grid(self.grid(), self.fatal_cell()),
                    row@ == vg[y as int].subrange(0, x as int),
                decreases w - x,
            {
                proof {
                    assert(self.grid()[y as int].len() == w);
                }
                let v = self.visual(x, y);
                row.push(v);
                x = x + 1;
                proof {
                    assert(row@ =~= vg[y as int].subrange(0, x as int));
                }
            }
            proof {
                assert(self.grid()[y as int].len() == w);
                assert(row@ =~= vg[y as int]);
            }
            r.push(row);
            y = y + 1;
        }
        r
    }

    /// How many cells are opened.
    pub fn opened_cells(&self) -> (r: usize)
        ensures
            r == self.opened(),
    {
        self.opened_num
    }

    /// How many mines the board holds once placed.
    pub fn mine_num(&self) -> (r: usize)
        ensures
            r == self.mines(),
    {
        self.mine_num
    }

    /// Whether the mines have been placed in this round.
    pub fn started(&self) -> (r: bool)
        ensures
            r == self.is_started(),
    {
        self.started
    }

    /// Builds a field of `width` by `height` unopened empty cells that will
    /// hold `mine_num` mines once the first cell is opened.
    pub fn construct(width: usize, height: usize, mine_num: usize) -> (r: Result<
        Msweeper,
        BoardError,
    >)
        requires
            width * height <= isize::MAX,
        ensures
            (width == 0 || height == 0) ==> r == Err::<Msweeper, BoardError>(
                BoardError::InvalidSize { width, height, mine_num },
            ),
            (width > 0 && height > 0 && mine_num >= width * height) ==> r == Err::<
                Msweeper,
                BoardError,
            >(BoardError::TooManyMines { width, height, mine_num }),
            r.is_ok() <==> (width > 0 && height > 0 && mine_num < width * height),
            r matches Ok(m) ==> {
                &&& m.wf()
                &&& m.grid() == fresh_grid(width as int, height as int)
                &&& m.mines() == mine_num
                &&& !m.is_started()
                &&& m.opened() == 0
                &&& m.fatal_cell().is_none()
            },
    {
        if width == 0 || height == 0 {
            return Err(BoardError::InvalidSize { width, height, mine_num });
        }
        if mine_num >= width * height {
            return Err(BoardError::TooManyMines { width, height, mine_num });
        }
        let mut board: Vec<Vec<Space>> = Vec::new();
        let mut y: usize = 0;
        while y < height
            invariant
                y <= height,
                board@.len() == y,
                forall|i: int| 0 <= i < y ==> #[trigger] board@[i]@ == Seq::new(
                    width as nat,
                    |x: int| fresh_space(),
                ),
            decreases height - y,
        {
            let mut row: Vec<Space> = Vec::new();
            let mut x: usize = 0;
            while x < width
                invariant
                    x <= width,
                    row@ == Seq::new(x as nat, |i: int| fresh_space()),
                decreases width - x,
            {
                row.push(Space { state: SpaceState::Unopened, stype: SpaceType::Empty });
                x = x + 1;
                proof {
                    assert(row@ =~= Seq::new(x as nat, |i: int| fresh_space()));
                }
            }
            board.push(row);
            y = y + 1;
        }
        let m = Msweeper { mine_num, started: false, opened_num: 0, fatal: None, board };
        proof {
            assert(m.grid() =~= fresh_grid(width as int, height as int));
            lemma_grid_count_all(m.grid(), width as int, opened_pred(), false);
        }
        Ok(m)
    }
}

/// The first open action of a round never hits a mine, and afterwards the
/// board holds exactly as many mines as it was built with.
pub proof fn lemma_first_open_never_hits(
    before: Msweeper,
    after: Msweeper,
    x: int,
    y: int,
    r: Outcome,
)
    requires
        before.wf(),
        after.wf(),
        !before.is_started(),
        in_bounds(before.grid(), x, y),
        Msweeper::open_post(before, after, x, y, r),
    ensures
        r != Outcome::MineHit,
        after.is_started(),
        mine_count(after.grid()) == after.mines(),
{
    let g1 = choose|g1: Grid|
        #[trigger] placed_around(before.grid(), g1, x, y, before.mines()) && (after.grid(), after.fatal_cell(), r)
            == played(g1, before.fatal_cell(), x, y, before.mines() as int);
    assert(before.grid()[y][x].state != SpaceState::Opened);
    assert(g1[y][x].stype == SpaceType::Empty);
}

/// A chord on an opened cell whose neighbours hold a different number of
/// flags than of mines changes nothing and reports nothing.
pub proof fn lemma_chord_mismatch_is_noop(
    g: Grid,
    fatal: Option<(int, int)>,
    x: int,
    y: int,
    mines: int,
)
    requires
        in_bounds(g, x, y),
        g[y][x].state == SpaceState::Opened,
        adj_mines(g, x, y) != adj_flags(g, x, y),
    ensures
        played(g, fatal, x, y, mines) == (g, fatal, Outcome::NoOp),
{
}

/// Toggling the flag on a cell twice gives the board back.
pub proof fn lemma_flag_twice(g: Grid, x: int, y: int)
    requires
        wf_grid(g),
    ensures
        flag_result(flag_result(g, x, y), x, y) == g,
{
    if in_bounds(g, x, y) {
        let g2 = flag_result(flag_result(g, x, y), x, y);
        assert(g2[y] =~= g[y]);
        assert(g2 =~= g);
    }
}

impl Msweeper {
    /// While no mine is opened, the board is clear exactly when the number of
    /// opened cells equals the number of cells without a mine.
    pub proof fn lemma_clear_exact(self)
        requires
            self.wf(),
            self.fatal_cell().is_none(),
        ensures
            (self.opened() >= self.total() - self.mines()) == (self.opened() == self.total()
                - self.mines()),
    {
        let g = self.grid();
        let w = grid_width(g);
        let h = grid_height(g);
        if self.started {
            assert forall|yy: int, xx: int| 0 <= yy < g.len() && 0 <= xx < w implies !(opened_pred()(
                #[trigger] g[yy][xx],
            ) && mine_pred()(g[yy][xx])) by {
                assert(in_bounds(g, xx, yy));
            }
            lemma_grid_count_disjoint(g, w, opened_pred(), mine_pred());
            assert(h * w == w * h) by (nonlinear_arith);
        } else {
            lemma_grid_count_all(g, w, opened_pred(), false);
        }
    }
}

/// After `clean`, nothing is opened and the next open action on the board
/// places the mines again: it starts the round, hits no mine, and leaves the
/// board holding the same number of mines as before.
pub proof fn lemma_clean_then_open(
    m0: Msweeper,
    m1: Msweeper,
    m2: Msweeper,
    x: int,
    y: int,
    r: Outcome,
)
    requires
        m0.wf(),
        m1.wf(),
        m2.wf(),
        Msweeper::cleaned(m0, m1),
        in_bounds(m1.grid(), x, y),
        Msweeper::open_post(m1, m2, x, y, r),
    ensures
        m1.opened() == 0,
        !m1.is_started(),
        m2.is_started(),
        r != Outcome::MineHit,
        mine_count(m2.grid()) == m0.mines(),
{
    lemma_first_open_never_hits(m1, m2, x, y, r);
}

} // verus!
