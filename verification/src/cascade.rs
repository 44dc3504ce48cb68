//! What a reveal opens: the cells that a chain of covered cells without
//! mines around them connects to the cell that was clicked.

use crate::game::{Cell, CellState};
use crate::grid::{
    counts_correct, hidden_count, in_bounds, in_state, is_hidden, lemma_count_cells_update, mine_at,
    neighbor_mines, same_layout, with_cell, Grid,
};
use vstd::prelude::*;

verus! {

/// `(bx, by)` is one of the eight positions around `(ax, ay)`.
pub open spec fn adjacent(ax: int, ay: int, bx: int, by: int) -> bool {
    &&& ax - 1 <= bx <= ax + 1
    &&& ay - 1 <= by <= ay + 1
    &&& (ax != bx || ay != by)
}

/// `(x, y)` is a covered cell of `g`.
pub open spec fn covered_at(g: Grid, x: int, y: int) -> bool {
    in_bounds(g, x, y) && g[x][y].state == CellState::Covered
}

/// `(x, y)` is a cell of `g` from which a reveal goes on to the neighbours:
/// it holds no mine and no mine is counted around it.
pub open spec fn spreads_at(g: Grid, x: int, y: int) -> bool {
    in_bounds(g, x, y) && !g[x][y].has_mine && g[x][y].adjacent_mines == 0
}

/// A chain of covered cells, each next to the one before it, along which a
/// reveal travels: every cell but the last spreads.
pub open spec fn cascade_path(g: Grid, path: Seq<(int, int)>) -> bool {
    &&& path.len() > 0
    &&& forall|i: int| 0 <= i < path.len() ==> covered_at(g, (#[trigger] path[i]).0, path[i].1)
    &&& forall|i: int|
        0 <= i < path.len() - 1 ==> spreads_at(g, (#[trigger] path[i]).0, path[i].1) && adjacent(
            path[i].0,
            path[i].1,
            path[i + 1].0,
            path[i + 1].1,
        )
}

/// A reveal that starts at the covered cell `(sx, sy)` opens `(x, y)`.
pub open spec fn cascade_reaches(g: Grid, sx: int, sy: int, x: int, y: int) -> bool {
    exists|path: Seq<(int, int)>|
        cascade_path(g, path) && path.first() == (sx, sy) && #[trigger] path.last() == (x, y)
}

/// The board after a reveal that starts at `(sx, sy)`: every cell that the
/// reveal reaches is revealed, every other cell is as it was.
pub open spec fn after_cascade(g: Grid, sx: int, sy: int) -> Grid {
    Seq::new(
        g.len(),
        |x: int|
            Seq::new(
                g[x].len(),
                |y: int|
                    if cascade_reaches(g, sx, sy, x, y) {
                        in_state(g[x][y], CellState::Revealed)
                    } else {
                        g[x][y]
                    },
            ),
    )
}

/// `(x, y)` was covered in `g0` and is revealed in `g`.
pub open spec fn opened(g0: Grid, g: Grid, x: int, y: int) -> bool {
    in_bounds(g0, x, y) && g0[x][y].state == CellState::Covered && g[x][y].state
        == CellState::Revealed
}

/// No cell around `(x, y)` is covered.
pub open spec fn closed_at(g: Grid, x: int, y: int) -> bool {
    forall|nx: int, ny: int|
        adjacent(x, y, nx, ny) && in_bounds(g, nx, ny) ==> (#[trigger] g[nx][ny]).state
            != CellState::Covered
}

/// `g` is a stage of the reveal that started at `(sx, sy)` on `g0`: the two
/// differ only in cells that the reveal reaches and has opened.
pub open spec fn cascade_stage(g0: Grid, g: Grid, sx: int, sy: int) -> bool {
    &&& same_layout(g0, g)
    &&& forall|x: int, y: int|
        in_bounds(g0, x, y) ==> (#[trigger] g[x][y]).state == g0[x][y].state || (opened(
            g0,
            g,
            x,
            y,
        ) && cascade_reaches(g0, sx, sy, x, y))
}

/// Every cell on the work list has been opened and spreads.
pub open spec fn pending_opened(g0: Grid, g: Grid, pending: Seq<(int, int)>) -> bool {
    forall|i: int|
        0 <= i < pending.len() ==> opened(g0, g, (#[trigger] pending[i]).0, pending[i].1)
            && spreads_at(g0, pending[i].0, pending[i].1)
}

/// Every opened cell that spreads, but for `(cx, cy)`, either waits on the
/// work list or has no covered cell left around it.
pub open spec fn settled_except(
    g0: Grid,
    g: Grid,
    pending: Seq<(int, int)>,
    cx: int,
    cy: int,
) -> bool {
    forall|x: int, y: int|
        #[trigger] opened(g0, g, x, y) && spreads_at(g0, x, y) && !(x == cx && y == cy) ==> closed_at(
            g,
            x,
            y,
        ) || pending.contains((x, y))
}

/// A covered cell reaches itself.
pub proof fn lemma_cascade_start(g: Grid, x: int, y: int)
    requires
        covered_at(g, x, y),
    ensures
        cascade_reaches(g, x, y, x, y),
{
    let path = seq![(x, y)];
    assert(cascade_path(g, path));
    assert(path.first() == (x, y) && path.last() == (x, y));
}

/// A reveal goes on from a cell that spreads to each covered cell around it.
pub proof fn lemma_cascade_step(g: Grid, sx: int, sy: int, x: int, y: int, nx: int, ny: int)
    requires
        cascade_reaches(g, sx, sy, x, y),
        spreads_at(g, x, y),
        adjacent(x, y, nx, ny),
        covered_at(g, nx, ny),
    ensures
        cascade_reaches(g, sx, sy, nx, ny),
{
    let path = choose|path: Seq<(int, int)>|
        cascade_path(g, path) && path.first() == (sx, sy) && #[trigger] path.last() == (x, y);
    let longer = path.push((nx, ny));
    assert forall|i: int| 0 <= i < longer.len() implies covered_at(
        g,
        (#[trigger] longer[i]).0,
        longer[i].1,
    ) by {
        if i < path.len() {
            assert(longer[i] == path[i]);
        }
    }
    assert forall|i: int| 0 <= i < longer.len() - 1 implies spreads_at(
        g,
        (#[trigger] longer[i]).0,
        longer[i].1,
    ) && adjacent(longer[i].0, longer[i].1, longer[i + 1].0, longer[i + 1].1) by {
        assert(longer[i] == path[i]);
        if i < path.len() - 1 {
            assert(longer[i + 1] == path[i + 1]);
        }
    }
    assert(cascade_path(g, longer));
    assert(longer.first() == path.first());
    assert(longer.last() == (nx, ny));
}

/// Around a mine-free cell with the number 0 there is no mine.
pub proof fn lemma_no_mine_around(g: Grid, x: int, y: int, nx: int, ny: int)
    requires
        counts_correct(g),
        spreads_at(g, x, y),
        adjacent(x, y, nx, ny),
        in_bounds(g, nx, ny),
    ensures
        !g[nx][ny].has_mine,
{
    assert(g[x][y].adjacent_mines == neighbor_mines(g, x, y));
    assert(mine_at(g, nx, ny) == 0);
}

/// On a board whose numbers are right, a reveal that starts at a mine-free
/// cell reaches no mine.
pub proof fn lemma_cascade_avoids_mines(g: Grid, sx: int, sy: int, x: int, y: int)
    requires
        counts_correct(g),
        in_bounds(g, sx, sy),
        !g[sx][sy].has_mine,
        cascade_reaches(g, sx, sy, x, y),
    ensures
        in_bounds(g, x, y),
        !g[x][y].has_mine,
{
    let path = choose|path: Seq<(int, int)>|
        cascade_path(g, path) && path.first() == (sx, sy) && #[trigger] path.last() == (x, y);
    let last = path.len() - 1;
    assert(covered_at(g, path[last].0, path[last].1));
    if last > 0 {
        let before = path[last - 1];
        assert(spreads_at(g, before.0, before.1));
        lemma_no_mine_around(g, before.0, before.1, x, y);
    }
}

/// Along a chain from the start every cell has been opened, once the work
/// list is empty.
proof fn lemma_path_opened(g0: Grid, g: Grid, sx: int, sy: int, path: Seq<(int, int)>, i: int)
    requires
        cascade_stage(g0, g, sx, sy),
        opened(g0, g, sx, sy),
        settled_except(g0, g, Seq::empty(), -1, -1),
        cascade_path(g0, path),
        path.first() == (sx, sy),
        0 <= i < path.len(),
    ensures
        opened(g0, g, path[i].0, path[i].1),
    decreases i,
{
    if i > 0 {
        lemma_path_opened(g0, g, sx, sy, path, i - 1);
        let (px, py) = path[i - 1];
        let (x, y) = path[i];
        assert(spreads_at(g0, px, py) && adjacent(px, py, x, y));
        assert(opened(g0, g, px, py));
        assert(!Seq::<(int, int)>::empty().contains((px, py)));
        assert(closed_at(g, px, py));
        assert(covered_at(g0, x, y));
        assert(in_bounds(g, x, y));
        assert(g[x][y].state != CellState::Covered);
    }
}

/// When the work list is empty the reveal is done: the board is the one that
/// `after_cascade` describes.
pub proof fn lemma_cascade_done(g0: Grid, g: Grid, sx: int, sy: int)
    requires
        cascade_stage(g0, g, sx, sy),
        opened(g0, g, sx, sy),
        settled_except(g0, g, Seq::empty(), -1, -1),
    ensures
        g == after_cascade(g0, sx, sy),
{
    let done = after_cascade(g0, sx, sy);
    assert(g.len() == done.len());
    assert forall|x: int| 0 <= x < g.len() implies g[x] == done[x] by {
        assert(g0[x].len() == g[x].len());
        assert forall|y: int| 0 <= y < g[x].len() implies g[x][y] == done[x][y] by {
            assert(in_bounds(g0, x, y));
            if cascade_reaches(g0, sx, sy, x, y) {
                let path = choose|path: Seq<(int, int)>|
                    cascade_path(g0, path) && path.first() == (sx, sy) && #[trigger] path.last()
                        == (x, y);
                lemma_path_opened(g0, g, sx, sy, path, path.len() - 1);
            }
            assert(g[x][y].has_mine == g0[x][y].has_mine);
        }
        assert(g[x] =~= done[x]);
    }
    assert(g =~= done);
}

/// Opening one more covered cell around an opened cell that spreads, or the
/// start itself, leaves the board a stage of the same reveal.
pub proof fn lemma_stage_open(g0: Grid, g: Grid, sx: int, sy: int, x: int, y: int)
    requires
        cascade_stage(g0, g, sx, sy),
        covered_at(g, x, y),
        cascade_reaches(g0, sx, sy, x, y),
    ensures
        cascade_stage(
            g0,
            g.update(x, g[x].update(y, in_state(g[x][y], CellState::Revealed))),
            sx,
            sy,
        ),
        opened(
            g0,
            g.update(x, g[x].update(y, in_state(g[x][y], CellState::Revealed))),
            x,
            y,
        ),
{
    let h = g.update(x, g[x].update(y, in_state(g[x][y], CellState::Revealed)));
    assert(in_bounds(g0, x, y));
    assert(g[x][y].state == g0[x][y].state);
    assert forall|a: int| 0 <= a < g0.len() implies (#[trigger] g0[a]).len() == h[a].len() by {
        assert(g0[a].len() == g[a].len());
    }
    assert forall|a: int, b: int| in_bounds(g0, a, b) implies (#[trigger] g0[a][b]).has_mine
        == h[a][b].has_mine && g0[a][b].adjacent_mines == h[a][b].adjacent_mines by {
        assert(g0[a].len() == g[a].len());
        assert(g0[a][b].has_mine == g[a][b].has_mine);
    }
    assert forall|a: int, b: int| in_bounds(g0, a, b) implies (#[trigger] h[a][b]).state
        == g0[a][b].state || (opened(g0, h, a, b) && cascade_reaches(g0, sx, sy, a, b)) by {
        assert(g0[a].len() == g[a].len());
        if a == x && b == y {
        } else {
            assert(h[a][b] == g[a][b]);
            assert(g[a][b].state == g0[a][b].state || (opened(g0, g, a, b) && cascade_reaches(
                g0,
                sx,
                sy,
                a,
                b,
            )));
        }
    }
}

/// Every cell around `(cx, cy)` that comes before `(nx, ny)`, column by
/// column, is no longer covered.
pub open spec fn visited_around(g: Grid, cx: int, cy: int, nx: int, ny: int) -> bool {
    forall|a: int, b: int|
        adjacent(cx, cy, a, b) && in_bounds(g, a, b) && (a < nx || (a == nx && b < ny)) ==> (
        #[trigger] g[a][b]).state != CellState::Covered
}

/// Taking the last cell off the work list leaves every other opened cell
/// that spreads on the list or settled.
pub proof fn lemma_take_pending(g0: Grid, g: Grid, pending: Seq<(int, int)>)
    requires
        pending.len() > 0,
        pending_opened(g0, g, pending),
        settled_except(g0, g, pending, -1, -1),
    ensures
        pending_opened(g0, g, pending.drop_last()),
        settled_except(
            g0,
            g,
            pending.drop_last(),
            pending.last().0,
            pending.last().1,
        ),
        opened(g0, g, pending.last().0, pending.last().1),
        spreads_at(g0, pending.last().0, pending.last().1),
{
    let rest = pending.drop_last();
    let (cx, cy) = pending.last();
    assert(pending[pending.len() - 1] == (cx, cy));
    assert forall|i: int| 0 <= i < rest.len() implies opened(
        g0,
        g,
        (#[trigger] rest[i]).0,
        rest[i].1,
    ) && spreads_at(g0, rest[i].0, rest[i].1) by {
        assert(rest[i] == pending[i]);
    }
    assert forall|x: int, y: int| #[trigger]
        opened(g0, g, x, y) && spreads_at(g0, x, y) && !(x == cx && y == cy) implies closed_at(g, x, y) || rest.contains((x, y)) by {
        if !closed_at(g, x, y) {
            assert(pending.contains((x, y)));
            let k = choose|k: int| 0 <= k < pending.len() && pending[k] == (x, y);
            assert(k < rest.len());
            assert(rest[k] == (x, y));
        }
    }
}

/// Once every cell around `(cx, cy)` has been visited, no opened cell that
/// spreads is unsettled.
pub proof fn lemma_settle(g0: Grid, g: Grid, pending: Seq<(int, int)>, cx: int, cy: int)
    requires
        settled_except(g0, g, pending, cx, cy),
        visited_around(g, cx, cy, cx + 2, 0),
    ensures
        settled_except(g0, g, pending, -1, -1),
{
    assert(closed_at(g, cx, cy));
}

/// What opening one covered cell that the reveal reaches does to a stage of
/// the reveal: it stays a stage, the work list with the cell added (if it
/// spreads) stays in order, nothing that was opened or visited is undone,
/// and one cell fewer is hidden.
pub proof fn lemma_open_neighbor(
    g0: Grid,
    g: Grid,
    sx: int,
    sy: int,
    pending: Seq<(int, int)>,
    cx: int,
    cy: int,
    nx: int,
    ny: int,
)
    requires
        cascade_stage(g0, g, sx, sy),
        pending_opened(g0, g, pending),
        settled_except(g0, g, pending, cx, cy),
        covered_at(g, nx, ny),
        cascade_reaches(g0, sx, sy, nx, ny),
    ensures
        ({
            let h = with_cell(g, nx, ny, in_state(g[nx][ny], CellState::Revealed));
            let next = if spreads_at(g, nx, ny) {
                pending.push((nx, ny))
            } else {
                pending
            };
            &&& cascade_stage(g0, h, sx, sy)
            &&& opened(g0, h, nx, ny)
            &&& pending_opened(g0, h, next)
            &&& settled_except(g0, h, next, cx, cy)
            &&& forall|a: int, b: int| opened(g0, g, a, b) ==> opened(g0, h, a, b)
            &&& forall|a: int, b: int, c: int, d: int| #[trigger]
                visited_around(g, a, b, c, d) ==> visited_around(h, a, b, c, d)
            &&& hidden_count(h) == hidden_count(g) - 1
        }),
{
    let h = with_cell(g, nx, ny, in_state(g[nx][ny], CellState::Revealed));
    let next = if spreads_at(g, nx, ny) {
        pending.push((nx, ny))
    } else {
        pending
    };
    lemma_stage_open(g0, g, sx, sy, nx, ny);
    lemma_count_cells_update(
        g,
        nx,
        ny,
        in_state(g[nx][ny], CellState::Revealed),
        |c: Cell| is_hidden(c),
    );
    assert(in_bounds(g0, nx, ny));
    assert(g0[nx].len() == g[nx].len());
    assert(g0[nx][ny].has_mine == g[nx][ny].has_mine);
    // A cell of `h` is the cell of `g`, but for the one that was opened.
    assert forall|a: int, b: int| in_bounds(g, a, b) implies in_bounds(h, a, b) && (#[trigger] h[a][b])
        == (if a == nx && b == ny {
        in_state(g[nx][ny], CellState::Revealed)
    } else {
        g[a][b]
    }) by {}
    assert forall|a: int, b: int| opened(g0, g, a, b) implies opened(g0, h, a, b) by {
        assert(g0[a].len() == g[a].len());
        assert(in_bounds(g, a, b));
    }
    assert forall|a: int, b: int| closed_at(g, a, b) implies closed_at(h, a, b) by {
        assert forall|p: int, q: int| adjacent(a, b, p, q) && in_bounds(h, p, q) implies (
        #[trigger] h[p][q]).state != CellState::Covered by {
            assert(in_bounds(g, p, q));
            if !(p == nx && q == ny) {
                assert(g[p][q].state != CellState::Covered);
            }
        }
    }
    assert forall|a: int, b: int, c: int, d: int| #[trigger]
        visited_around(g, a, b, c, d) implies visited_around(h, a, b, c, d) by {
        assert forall|p: int, q: int|
            adjacent(a, b, p, q) && in_bounds(h, p, q) && (p < c || (p == c && q < d)) implies (
        #[trigger] h[p][q]).state != CellState::Covered by {
            assert(in_bounds(g, p, q));
            if !(p == nx && q == ny) {
                assert(g[p][q].state != CellState::Covered);
            }
        }
    }
    assert forall|i: int| 0 <= i < next.len() implies opened(
        g0,
        h,
        (#[trigger] next[i]).0,
        next[i].1,
    ) && spreads_at(g0, next[i].0, next[i].1) by {
        if i < pending.len() {
            assert(next[i] == pending[i]);
            assert(opened(g0, g, pending[i].0, pending[i].1));
        } else {
            assert(next[i] == (nx, ny));
        }
    }
    assert forall|x: int, y: int| #[trigger]
        opened(g0, h, x, y) && spreads_at(g0, x, y) && !(x == cx && y == cy) implies closed_at(
        h,
        x,
        y,
    ) || next.contains((x, y)) by {
        assert(g0[x].len() == g[x].len());
        assert(in_bounds(g, x, y));
        if x == nx && y == ny {
            assert(next[pending.len() as int] == (x, y));
        } else {
            assert(h[x][y] == g[x][y]);
            assert(opened(g0, g, x, y));
            if !closed_at(g, x, y) {
                let k = choose|k: int|
                    0 <= k < pending.len() && pending[k] == (x, y);
                assert(next[k] == (x, y));
            }
        }
    }
}

} // verus!
