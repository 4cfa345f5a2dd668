use vstd::prelude::*;

use crate::point::{dir_dx, dir_dy};

verus! {

/// Whether a cell has been opened, flagged, or neither.
#[derive(Clone, Copy, Debug, PartialEq, Eq, Structural)]
pub enum SpaceState {
    Unopened,
    Opened,
    Flag,
}

/// What a cell holds.
#[derive(Clone, Copy, Debug, PartialEq, Eq, Structural)]
pub enum SpaceType {
    Empty,
    Mine,
}

/// One cell of the board.
#[derive(Clone, Copy, Debug, PartialEq, Eq, Structural)]
pub struct Space {
    pub state: SpaceState,
    pub stype: SpaceType,
}

/// A board as rows of cells: `g[y][x]` is the cell in column `x` of row `y`.
pub type Grid = Seq<Seq<Space>>;

pub open spec fn fresh_space() -> Space {
    Space { state: SpaceState::Unopened, stype: SpaceType::Empty }
}

pub open spec fn grid_width(g: Grid) -> int {
    if g.len() > 0 {
        g[0].len() as int
    } else {
        0
    }
}

pub open spec fn grid_height(g: Grid) -> int {
    g.len() as int
}

/// At least one row and one column, and every row as long as the first.
pub open spec fn wf_grid(g: Grid) -> bool {
    &&& g.len() >= 1
    &&& g[0].len() >= 1
    &&& forall|y: int| 0 <= y < g.len() ==> #[trigger] g[y].len() == g[0].len()
}

/// Two boards of the same shape.
pub open spec fn same_shape(g: Grid, h: Grid) -> bool {
    &&& g.len() == h.len()
    &&& forall|y: int| 0 <= y < g.len() ==> #[trigger] g[y].len() == h[y].len()
}

pub open spec fn in_bounds(g: Grid, x: int, y: int) -> bool {
    0 <= x < grid_width(g) && 0 <= y < grid_height(g)
}

/// The board with the cell at `(x, y)` replaced by `s`.
pub open spec fn set_cell(g: Grid, x: int, y: int, s: Space) -> Grid {
    g.update(y, g[y].update(x, s))
}

pub open spec fn is_mine_at(g: Grid, x: int, y: int) -> bool {
    in_bounds(g, x, y) && g[y][x].stype == SpaceType::Mine
}

pub open spec fn is_flag_at(g: Grid, x: int, y: int) -> bool {
    in_bounds(g, x, y) && g[y][x].state == SpaceState::Flag
}

/// An in-bounds cell that is neither opened nor flagged and holds no mine.
pub open spec fn safe_unopened(g: Grid, x: int, y: int) -> bool {
    in_bounds(g, x, y) && g[y][x].state == SpaceState::Unopened && g[y][x].stype
        == SpaceType::Empty
}

/// What a neighbour count looks for.
#[derive(Clone, Copy, Debug, PartialEq, Eq, Structural)]
pub enum Probe {
    Mine,
    Flag,
}

pub open spec fn probe_hit(g: Grid, x: int, y: int, probe: Probe) -> bool {
    match probe {
        Probe::Mine => is_mine_at(g, x, y),
        Probe::Flag => is_flag_at(g, x, y),
    }
}

/// How many of the first `k` neighbours of `(x, y)` the probe finds;
/// cells off the board count as nothing.
pub open spec fn adj_count(g: Grid, x: int, y: int, k: int, probe: Probe) -> nat
    decreases k,
{
    if k <= 0 {
        0
    } else {
        adj_count(g, x, y, k - 1, probe) + if probe_hit(
            g,
            x + dir_dx(k - 1),
            y + dir_dy(k - 1),
            probe,
        ) {
            1nat
        } else {
            0nat
        }
    }
}

pub open spec fn adj_mines(g: Grid, x: int, y: int) -> nat {
    adj_count(g, x, y, 8, Probe::Mine)
}

pub open spec fn adj_flags(g: Grid, x: int, y: int) -> nat {
    adj_count(g, x, y, 8, Probe::Flag)
}

/// `b` is the neighbour of `a` in one of the eight directions.
pub open spec fn is_step(a: (int, int), b: (int, int)) -> bool {
    exists|d: int| 0 <= d < 8 && b.0 == a.0 + dir_dx(d) && b.1 == a.1 + dir_dy(d)
}

/// A chain of safe unopened cells, each one a neighbour of the one before,
/// where every cell but the last has no mine around it.
pub open spec fn is_path(g: Grid, path: Seq<(int, int)>) -> bool {
    &&& path.len() >= 1
    &&& forall|i: int| 0 <= i < path.len() ==> safe_unopened(g, #[trigger] path[i].0, path[i].1)
    &&& forall|i: int|
        0 <= i < path.len() - 1 ==> adj_mines(g, #[trigger] path[i].0, path[i].1) == 0 && is_step(
            path[i],
            path[i + 1],
        )
}

/// Opening `(x, y)` spreads to `(cx, cy)`.
pub open spec fn reach(g: Grid, x: int, y: int, cx: int, cy: int) -> bool {
    exists|path: Seq<(int, int)>|
        #[trigger] is_path(g, path) && path[0] == (x, y) && path.last() == (cx, cy)
}

/// The board after opening `(x, y)` and spreading through every cell with no
/// mine around it: exactly the cells that `reach` finds become opened.
pub open spec fn flood_result(g: Grid, x: int, y: int) -> Grid {
    Seq::new(
        g.len(),
        |yy: int|
            Seq::new(
                g[yy].len(),
                |xx: int|
                    if reach(g, x, y, xx, yy) {
                        Space { state: SpaceState::Opened, stype: g[yy][xx].stype }
                    } else {
                        g[yy][xx]
                    },
            ),
    )
}

/// The board with every cell opened and every content kept.
pub open spec fn all_opened(g: Grid) -> Grid {
    Seq::new(
        g.len(),
        |yy: int|
            Seq::new(
                g[yy].len(),
                |xx: int| Space { state: SpaceState::Opened, stype: g[yy][xx].stype },
            ),
    )
}

pub open spec fn opened_pred() -> spec_fn(Space) -> bool {
    |c: Space| c.state == SpaceState::Opened
}

pub open spec fn mine_pred() -> spec_fn(Space) -> bool {
    |c: Space| c.stype == SpaceType::Mine
}

pub open spec fn row_count(r: Seq<Space>, f: spec_fn(Space) -> bool) -> nat
    decreases r.len(),
{
    if r.len() == 0 {
        0
    } else {
        row_count(r.drop_last(), f) + if f(r.last()) {
            1nat
        } else {
            0nat
        }
    }
}

/// How many cells of the board satisfy `f`.
pub open spec fn grid_count(g: Grid, f: spec_fn(Space) -> bool) -> nat
    decreases g.len(),
{
    if g.len() == 0 {
        0
    } else {
        grid_count(g.drop_last(), f) + row_count(g.last(), f)
    }
}

pub open spec fn opened_count(g: Grid) -> nat {
    grid_count(g, opened_pred())
}

pub open spec fn mine_count(g: Grid) -> nat {
    grid_count(g, mine_pred())
}

pub proof fn lemma_row_count_update(r: Seq<Space>, i: int, v: Space, f: spec_fn(Space) -> bool)
    requires
        0 <= i < r.len(),
    ensures
        row_count(r.update(i, v), f) as int == row_count(r, f) as int - (if f(r[i]) {
            1int
        } else {
            0int
        }) + (if f(v) {
            1int
        } else {
            0int
        }),
    decreases r.len(),
{
    let r2 = r.update(i, v);
    if i == r.len() - 1 {
        assert(r2.drop_last() =~= r.drop_last());
    } else {
        assert(r2.drop_last() =~= r.drop_last().update(i, v));
        lemma_row_count_update(r.drop_last(), i, v, f);
    }
}

pub proof fn lemma_grid_count_update_row(g: Grid, y: int, row: Seq<Space>, f: spec_fn(Space) -> bool)
    requires
        0 <= y < g.len(),
    ensures
        grid_count(g.update(y, row), f) as int == grid_count(g, f) as int - row_count(g[y], f)
            + row_count(row, f),
    decreases g.len(),
{
    let g2 = g.update(y, row);
    if y == g.len() - 1 {
        assert(g2.drop_last() =~= g.drop_last());
    } else {
        assert(g2.drop_last() =~= g.drop_last().update(y, row));
        lemma_grid_count_update_row(g.drop_last(), y, row, f);
    }
}

/// Replacing one cell changes a count by what the old and new cell contribute.
pub proof fn lemma_grid_count_set(g: Grid, x: int, y: int, v: Space, f: spec_fn(Space) -> bool)
    requires
        0 <= y < g.len(),
        0 <= x < g[y].len(),
    ensures
        grid_count(set_cell(g, x, y, v), f) as int == grid_count(g, f) as int - (if f(g[y][x]) {
            1int
        } else {
            0int
        }) + (if f(v) {
            1int
        } else {
            0int
        }),
{
    lemma_grid_count_update_row(g, y, g[y].update(x, v), f);
    lemma_row_count_update(g[y], x, v, f);
}

pub proof fn lemma_row_count_disjoint(
    r: Seq<Space>,
    f: spec_fn(Space) -> bool,
    f2: spec_fn(Space) -> bool,
)
    requires
        forall|i: int| 0 <= i < r.len() ==> !(f(#[trigger] r[i]) && f2(r[i])),
    ensures
        row_count(r, f) + row_count(r, f2) <= r.len(),
    decreases r.len(),
{
    if r.len() > 0 {
        lemma_row_count_disjoint(r.drop_last(), f, f2);
        assert(!(f(r[r.len() - 1]) && f2(r[r.len() - 1])));
    }
}

/// Two properties that no cell has at once are held together by at most all cells.
pub proof fn lemma_grid_count_disjoint(g: Grid, w: int, f: spec_fn(Space) -> bool, f2: spec_fn(Space) -> bool)
    requires
        forall|y: int| 0 <= y < g.len() ==> #[trigger] g[y].len() == w,
        forall|y: int, x: int|
            0 <= y < g.len() && 0 <= x < w ==> !(f(#[trigger] g[y][x]) && f2(g[y][x])),
    ensures
        grid_count(g, f) + grid_count(g, f2) <= g.len() * w,
    decreases g.len(),
{
    if g.len() > 0 {
        let last = g[g.len() - 1];
        assert forall|i: int| 0 <= i < last.len() implies !(f(#[trigger] last[i]) && f2(last[i])) by {
            assert(g[g.len() - 1][i] == last[i]);
        }
        lemma_row_count_disjoint(last, f, f2);
        lemma_grid_count_disjoint(g.drop_last(), w, f, f2);
        assert((g.len() - 1) * w + w == g.len() * w) by (nonlinear_arith);
    }
}

pub proof fn lemma_row_count_all(r: Seq<Space>, f: spec_fn(Space) -> bool, all: bool)
    requires
        forall|i: int| 0 <= i < r.len() ==> f(#[trigger] r[i]) == all,
    ensures
        row_count(r, f) == if all {
            r.len()
        } else {
            0
        },
    decreases r.len(),
{
    if r.len() > 0 {
        lemma_row_count_all(r.drop_last(), f, all);
        assert(f(r[r.len() - 1]) == all);
    }
}

/// A property that every cell has, or that none has, is counted `h * w` or 0 times.
pub proof fn lemma_grid_count_all(g: Grid, w: int, f: spec_fn(Space) -> bool, all: bool)
    requires
        w >= 0,
        forall|y: int| 0 <= y < g.len() ==> #[trigger] g[y].len() == w,
        forall|y: int, x: int| 0 <= y < g.len() && 0 <= x < w ==> f(#[trigger] g[y][x]) == all,
    ensures
        grid_count(g, f) == if all {
            g.len() * w
        } else {
            0
        },
    decreases g.len(),
{
    if g.len() > 0 {
        let last = g[g.len() - 1];
        assert forall|i: int| 0 <= i < last.len() implies f(#[trigger] last[i]) == all by {
            assert(g[g.len() - 1][i] == last[i]);
        }
        lemma_row_count_all(last, f, all);
        lemma_grid_count_all(g.drop_last(), w, f, all);
        assert((g.len() - 1) * w + w == g.len() * w) by (nonlinear_arith);
    }
}

/// A cell's position in reading order lies within the board.
pub proof fn lemma_index_bound(w: int, h: int, x: int, y: int)
    requires
        0 <= x < w,
        0 <= y < h,
    ensures
        0 <= y * w + x < w * h,
        y * w + x <= w * h - 1,
{
    assert(0 <= y * w + x < w * h) by (nonlinear_arith)
        requires
            0 <= x < w,
            0 <= y < h,
    ;
}

/// The cell `s` with its state set to opened.
pub open spec fn opened_space(s: Space) -> Space {
    Space { state: SpaceState::Opened, stype: s.stype }
}

/// The safe unopened neighbours of `(cx, cy)` in `g0` are all opened in `g1`.
pub open spec fn neighbours_opened(g0: Grid, g1: Grid, cx: int, cy: int) -> bool {
    forall|d: int|
        0 <= d < 8 && safe_unopened(g0, cx + #[trigger] dir_dx(d), cy + dir_dy(d)) ==> g1[cy
            + dir_dy(d)][cx + dir_dx(d)].state == SpaceState::Opened
}

/// `g1` is a board in which a reveal started at `(x, y)` on `g0` can stop:
/// it opened only cells that the spread reaches, `(x, y)` itself if it was safe
/// and unopened, and around every cell it opened with no mine about it, every
/// safe unopened neighbour.
pub open spec fn flood_closed(g0: Grid, g1: Grid, x: int, y: int) -> bool {
    &&& same_shape(g0, g1)
    &&& forall|cy: int, cx: int|
        in_bounds(g0, cx, cy) ==> #[trigger] g1[cy][cx] == g0[cy][cx] || (reach(g0, x, y, cx, cy)
            && g1[cy][cx] == opened_space(g0[cy][cx]))
    &&& safe_unopened(g0, x, y) ==> g1[y][x].state == SpaceState::Opened
    &&& forall|cy: int, cx: int|
        #![trigger reach(g0, x, y, cx, cy)]
        in_bounds(g0, cx, cy) && reach(g0, x, y, cx, cy) && g1[cy][cx].state == SpaceState::Opened
            && adj_mines(g0, cx, cy) == 0 ==> neighbours_opened(g0, g1, cx, cy)
}

/// A safe unopened cell reaches itself.
pub proof fn lemma_reach_start(g: Grid, x: int, y: int)
    requires
        safe_unopened(g, x, y),
    ensures
        reach(g, x, y, x, y),
{
    let path = seq![(x, y)];
    assert(is_path(g, path));
}

/// Only safe unopened cells are reached, and only from one.
pub proof fn lemma_reach_safe(g: Grid, x: int, y: int, cx: int, cy: int)
    requires
        reach(g, x, y, cx, cy),
    ensures
        safe_unopened(g, cx, cy),
        safe_unopened(g, x, y),
{
    let path = choose|path: Seq<(int, int)>|
        #[trigger] is_path(g, path) && path[0] == (x, y) && path.last() == (cx, cy);
    assert(safe_unopened(g, path[0].0, path[0].1));
    assert(safe_unopened(g, path[path.len() - 1].0, path[path.len() - 1].1));
}

/// The spread goes on from a reached cell with no mine around it to each safe
/// unopened neighbour.
pub proof fn lemma_reach_step(g: Grid, x: int, y: int, cx: int, cy: int, d: int)
    requires
        reach(g, x, y, cx, cy),
        adj_mines(g, cx, cy) == 0,
        0 <= d < 8,
        safe_unopened(g, cx + dir_dx(d), cy + dir_dy(d)),
    ensures
        reach(g, x, y, cx + dir_dx(d), cy + dir_dy(d)),
{
    let path = choose|path: Seq<(int, int)>|
        #[trigger] is_path(g, path) && path[0] == (x, y) && path.last() == (cx, cy);
    let n = (cx + dir_dx(d), cy + dir_dy(d));
    let p2 = path.push(n);
    assert(is_step(path[path.len() - 1], n));
    assert forall|i: int| 0 <= i < p2.len() implies safe_unopened(g, #[trigger] p2[i].0, p2[i].1) by {
        if i < path.len() {
            assert(p2[i] == path[i]);
        }
    }
    assert forall|i: int| 0 <= i < p2.len() - 1 implies adj_mines(g, #[trigger] p2[i].0, p2[i].1) == 0
        && is_step(p2[i], p2[i + 1]) by {
        assert(p2[i] == path[i]);
        if i < path.len() - 1 {
            assert(p2[i + 1] == path[i + 1]);
        }
    }
    assert(is_path(g, p2));
    assert(p2[0] == (x, y) && p2.last() == n);
}

/// Every cell along a spread path is opened in a board where the reveal stopped.
proof fn lemma_path_opened(g0: Grid, g1: Grid, x: int, y: int, path: Seq<(int, int)>, i: int)
    requires
        flood_closed(g0, g1, x, y),
        is_path(g0, path),
        path[0] == (x, y),
        0 <= i < path.len(),
    ensures
        g1[path[i].1][path[i].0].state == SpaceState::Opened,
    decreases i,
{
    assert(safe_unopened(g0, path[i].0, path[i].1));
    if i == 0 {
        assert(safe_unopened(g0, path[0].0, path[0].1));
    } else {
        lemma_path_opened(g0, g1, x, y, path, i - 1);
        let c = path[i - 1];
        let prefix = path.subrange(0, i);
        assert forall|j: int| 0 <= j < prefix.len() implies safe_unopened(g0, #[trigger] prefix[j].0, prefix[j].1) by {
            assert(prefix[j] == path[j]);
        }
        assert forall|j: int| 0 <= j < prefix.len() - 1 implies adj_mines(g0, #[trigger] prefix[j].0, prefix[j].1) == 0
            && is_step(prefix[j], prefix[j + 1]) by {
            assert(prefix[j] == path[j]);
            assert(prefix[j + 1] == path[j + 1]);
        }
        assert(is_path(g0, prefix));
        assert(prefix.last() == c);
        assert(reach(g0, x, y, c.0, c.1));
        assert(safe_unopened(g0, c.0, c.1));
        assert(adj_mines(g0, path[i - 1].0, path[i - 1].1) == 0 && is_step(path[i - 1], path[i]));
        let d = choose|d: int|
            0 <= d < 8 && path[i].0 == c.0 + dir_dx(d) && path[i].1 == c.1 + dir_dy(d);
        assert(neighbours_opened(g0, g1, c.0, c.1));
        assert(safe_unopened(g0, c.0 + dir_dx(d), c.1 + dir_dy(d)));
    }
}

/// However the cells are visited, a reveal from `(x, y)` that stops in a
/// closed board ends in `flood_result`: the spread does not depend on the
/// order of the neighbours.
pub proof fn lemma_flood_unique(g0: Grid, g1: Grid, x: int, y: int)
    requires
        wf_grid(g0),
        flood_closed(g0, g1, x, y),
    ensures
        g1 == flood_result(g0, x, y),
{
    let fr = flood_result(g0, x, y);
    assert forall|cy: int| 0 <= cy < g0.len() implies #[trigger] g1[cy] =~= fr[cy] by {
        assert forall|cx: int| 0 <= cx < g1[cy].len() implies #[trigger] g1[cy][cx] == fr[cy][cx] by {
            assert(g0[cy].len() == g0[0].len());
            assert(in_bounds(g0, cx, cy));
            if reach(g0, x, y, cx, cy) {
                let path = choose|path: Seq<(int, int)>|
                    #[trigger] is_path(g0, path) && path[0] == (x, y) && path.last() == (cx, cy);
                lemma_path_opened(g0, g1, x, y, path, path.len() - 1);
                lemma_reach_safe(g0, x, y, cx, cy);
            }
        }
    }
    assert(g1 =~= fr);
}

/// Neighbour counts of mines depend on the contents alone.
pub proof fn lemma_adj_mines_same_content(g1: Grid, g2: Grid, x: int, y: int, k: int)
    requires
        same_shape(g1, g2),
        forall|cy: int, cx: int|
            in_bounds(g1, cx, cy) ==> #[trigger] g1[cy][cx].stype == g2[cy][cx].stype,
    ensures
        adj_count(g1, x, y, k, Probe::Mine) == adj_count(g2, x, y, k, Probe::Mine),
    decreases k,
{
    if k > 0 {
        lemma_adj_mines_same_content(g1, g2, x, y, k - 1);
        let nx = x + dir_dx(k - 1);
        let ny = y + dir_dy(k - 1);
        if in_bounds(g1, nx, ny) {
            assert(g1[ny][nx].stype == g2[ny][nx].stype);
        }
        if g1.len() > 0 {
            assert(g1[0].len() == g2[0].len());
        }
    }
}

/// No more cells satisfy `f` than the board holds.
pub proof fn lemma_grid_count_le(g: Grid, w: int, f: spec_fn(Space) -> bool)
    requires
        forall|y: int| 0 <= y < g.len() ==> #[trigger] g[y].len() == w,
    ensures
        grid_count(g, f) <= g.len() * w,
{
    let never = |c: Space| false;
    lemma_grid_count_disjoint(g, w, f, never);
}

} // verus!
