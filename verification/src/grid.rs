//! The mathematical model of a board: a sequence of columns of cells, with
//! the counting functions and neighbourhood sums that the game's contracts
//! are stated over.

use crate::game::{Cell, CellState};
use vstd::prelude::*;

verus! {

/// A board as a value: `g[x][y]` is the cell in column `x`, row `y`.
pub type Grid = Seq<Seq<Cell>>;

/// Every column of `g` has `height` cells and there are `width` columns.
pub open spec fn rectangular(g: Grid, width: int, height: int) -> bool {
    &&& g.len() == width
    &&& forall|x: int| 0 <= x < g.len() ==> (#[trigger] g[x]).len() == height
}

/// `(x, y)` names a cell of `g`.
pub open spec fn in_bounds(g: Grid, x: int, y: int) -> bool {
    0 <= x < g.len() && 0 <= y < g[x].len()
}

/// `g` with the cell at `(x, y)` replaced by `c`.
pub open spec fn with_cell(g: Grid, x: int, y: int, c: Cell) -> Grid {
    g.update(x, g[x].update(y, c))
}

/// The cell `c` in another state.
pub open spec fn in_state(c: Cell, state: CellState) -> Cell {
    Cell { has_mine: c.has_mine, state, adjacent_mines: c.adjacent_mines }
}

pub open spec fn is_mine(c: Cell) -> bool {
    c.has_mine
}

/// Covered or flagged: the player has not opened the cell.
pub open spec fn is_hidden(c: Cell) -> bool {
    c.state != CellState::Revealed
}

pub open spec fn is_flagged(c: Cell) -> bool {
    c.state == CellState::Flagged
}

/// How many cells of one column satisfy `p`.
pub open spec fn count_in_column(col: Seq<Cell>, p: spec_fn(Cell) -> bool) -> nat
    decreases col.len(),
{
    if col.len() == 0 {
        0
    } else {
        count_in_column(col.drop_last(), p) + if p(col.last()) {
            1nat
        } else {
            0nat
        }
    }
}

/// How many cells of the board satisfy `p`.
pub open spec fn count_cells(g: Grid, p: spec_fn(Cell) -> bool) -> nat
    decreases g.len(),
{
    if g.len() == 0 {
        0
    } else {
        count_cells(g.drop_last(), p) + count_in_column(g.last(), p)
    }
}

/// The number of cells that hold a mine.
pub open spec fn mine_count(g: Grid) -> nat {
    count_cells(g, |c: Cell| is_mine(c))
}

/// The number of cells that are covered or flagged.
pub open spec fn hidden_count(g: Grid) -> nat {
    count_cells(g, |c: Cell| is_hidden(c))
}

/// The number of flags on the board.
pub open spec fn flag_count(g: Grid) -> nat {
    count_cells(g, |c: Cell| is_flagged(c))
}

/// 1 if `(x, y)` is a cell of `g` that holds a mine, else 0. Positions off
/// the grid count as mine-free.
pub open spec fn mine_at(g: Grid, x: int, y: int) -> int {
    if in_bounds(g, x, y) && g[x][y].has_mine {
        1
    } else {
        0
    }
}

/// The number of mines among the up to eight neighbours of `(x, y)`.
pub open spec fn neighbor_mines(g: Grid, x: int, y: int) -> int {
    mine_at(g, x - 1, y - 1) + mine_at(g, x - 1, y) + mine_at(g, x - 1, y + 1)
        + mine_at(g, x, y - 1) + mine_at(g, x, y + 1)
        + mine_at(g, x + 1, y - 1) + mine_at(g, x + 1, y) + mine_at(g, x + 1, y + 1)
}

/// Every mine-free cell carries the number of mines around it.
pub open spec fn counts_correct(g: Grid) -> bool {
    forall|x: int, y: int|
        in_bounds(g, x, y) && !(#[trigger] g[x][y]).has_mine
            ==> g[x][y].adjacent_mines == neighbor_mines(g, x, y)
}

/// Every cell of the board is covered.
pub open spec fn all_covered(g: Grid) -> bool {
    forall|x: int, y: int| in_bounds(g, x, y) ==> (#[trigger] g[x][y]).state == CellState::Covered
}

/// `a` and `b` have the same shape and hold their mines in the same cells.
pub open spec fn same_mines(a: Grid, b: Grid) -> bool {
    &&& a.len() == b.len()
    &&& forall|x: int| 0 <= x < a.len() ==> (#[trigger] a[x]).len() == b[x].len()
    &&& forall|x: int, y: int|
        in_bounds(a, x, y) ==> (#[trigger] a[x][y]).has_mine == b[x][y].has_mine
}

/// `a` and `b` have the same shape and every cell is in the same state in
/// both.
pub open spec fn same_states(a: Grid, b: Grid) -> bool {
    &&& a.len() == b.len()
    &&& forall|x: int| 0 <= x < a.len() ==> (#[trigger] a[x]).len() == b[x].len()
    &&& forall|x: int, y: int| in_bounds(a, x, y) ==> (#[trigger] a[x][y]).state == b[x][y].state
}

/// `a` and `b` hold the same mines and the same numbers; only the cells'
/// states may differ.
pub open spec fn same_layout(a: Grid, b: Grid) -> bool {
    &&& a.len() == b.len()
    &&& forall|x: int| 0 <= x < a.len() ==> (#[trigger] a[x]).len() == b[x].len()
    &&& forall|x: int, y: int|
        in_bounds(a, x, y) ==> (#[trigger] a[x][y]).has_mine == b[x][y].has_mine
            && a[x][y].adjacent_mines == b[x][y].adjacent_mines
}

pub proof fn lemma_count_in_column_bound(col: Seq<Cell>, p: spec_fn(Cell) -> bool)
    ensures
        count_in_column(col, p) <= col.len(),
    decreases col.len(),
{
    if col.len() > 0 {
        lemma_count_in_column_bound(col.drop_last(), p);
    }
}

pub proof fn lemma_count_cells_bound(g: Grid, height: int, p: spec_fn(Cell) -> bool)
    requires
        rectangular(g, g.len() as int, height),
    ensures
        count_cells(g, p) <= g.len() * height,
    decreases g.len(),
{
    if g.len() > 0 {
        let rest = g.drop_last();
        assert(rectangular(rest, rest.len() as int, height)) by {
            assert forall|x: int| 0 <= x < rest.len() implies (#[trigger] rest[x]).len()
                == height by {
                assert(rest[x] == g[x]);
            }
        }
        lemma_count_cells_bound(rest, height, p);
        lemma_count_in_column_bound(g.last(), p);
        assert(g.last() == g[g.len() - 1]);
        assert(g.len() * height == rest.len() * height + height) by (nonlinear_arith)
            requires
                rest.len() == g.len() - 1,
        ;
    }
}

/// Replacing one cell of a column changes the count by what the old and the
/// new cell contribute.
pub proof fn lemma_count_in_column_update(
    col: Seq<Cell>,
    i: int,
    c: Cell,
    p: spec_fn(Cell) -> bool,
)
    requires
        0 <= i < col.len(),
    ensures
        count_in_column(col.update(i, c), p) == count_in_column(col, p) - (if p(col[i]) {
            1int
        } else {
            0int
        }) + (if p(c) {
            1int
        } else {
            0int
        }),
    decreases col.len(),
{
    let changed = col.update(i, c);
    if i == col.len() - 1 {
        assert(changed.drop_last() =~= col.drop_last());
    } else {
        assert(changed.drop_last() =~= col.drop_last().update(i, c));
        lemma_count_in_column_update(col.drop_last(), i, c, p);
    }
}

/// Replacing one column of a board changes the count by what the old and the
/// new column contribute.
pub proof fn lemma_count_cells_replace_column(
    g: Grid,
    x: int,
    col: Seq<Cell>,
    p: spec_fn(Cell) -> bool,
)
    requires
        0 <= x < g.len(),
    ensures
        count_cells(g.update(x, col), p) == count_cells(g, p) - count_in_column(g[x], p)
            + count_in_column(col, p),
    decreases g.len(),
{
    let changed = g.update(x, col);
    if x == g.len() - 1 {
        assert(changed.drop_last() =~= g.drop_last());
    } else {
        assert(changed.drop_last() =~= g.drop_last().update(x, col));
        lemma_count_cells_replace_column(g.drop_last(), x, col, p);
    }
}

/// Replacing one cell of a board changes the count by what the old and the
/// new cell contribute.
pub proof fn lemma_count_cells_update(g: Grid, x: int, y: int, c: Cell, p: spec_fn(Cell) -> bool)
    requires
        in_bounds(g, x, y),
    ensures
        count_cells(with_cell(g, x, y, c), p) == count_cells(g, p) - (if p(g[x][y]) {
            1int
        } else {
            0int
        }) + (if p(c) {
            1int
        } else {
            0int
        }),
{
    lemma_count_in_column_update(g[x], y, c, p);
    lemma_count_cells_replace_column(g, x, g[x].update(y, c), p);
}

/// Where `p` holds of no cell of a column the count is 0, and where it holds
/// of every cell the count is the column's length.
pub proof fn lemma_count_in_column_uniform(col: Seq<Cell>, p: spec_fn(Cell) -> bool)
    ensures
        (forall|i: int| 0 <= i < col.len() ==> !p(#[trigger] col[i])) ==> count_in_column(col, p)
            == 0,
        (forall|i: int| 0 <= i < col.len() ==> p(#[trigger] col[i])) ==> count_in_column(col, p)
            == col.len(),
    decreases col.len(),
{
    if col.len() > 0 {
        let rest = col.drop_last();
        lemma_count_in_column_uniform(rest, p);
        assert(forall|i: int| 0 <= i < rest.len() ==> rest[i] == col[i]);
        assert(col.last() == col[col.len() - 1]);
    }
}

/// Where `p` holds of no cell of a board the count is 0, and where it holds
/// of every cell the count is the number of cells.
pub proof fn lemma_count_cells_uniform(g: Grid, height: int, p: spec_fn(Cell) -> bool)
    requires
        rectangular(g, g.len() as int, height),
    ensures
        (forall|x: int, y: int| in_bounds(g, x, y) ==> !p(#[trigger] g[x][y])) ==> count_cells(g, p)
            == 0,
        (forall|x: int, y: int| in_bounds(g, x, y) ==> p(#[trigger] g[x][y])) ==> count_cells(g, p)
            == g.len() * height,
    decreases g.len(),
{
    if g.len() > 0 {
        let rest = g.drop_last();
        let last = g.len() - 1;
        assert(forall|x: int| 0 <= x < rest.len() ==> rest[x] == g[x]);
        assert(rectangular(rest, rest.len() as int, height));
        lemma_count_cells_uniform(rest, height, p);
        lemma_count_in_column_uniform(g.last(), p);
        assert(g.last() == g[last]);
        if forall|x: int, y: int| in_bounds(g, x, y) ==> !p(#[trigger] g[x][y]) {
            assert forall|x: int, y: int| in_bounds(rest, x, y) implies !p(
                #[trigger] rest[x][y],
            ) by {
                assert(in_bounds(g, x, y));
            }
            assert forall|i: int| 0 <= i < g.last().len() implies !p(#[trigger] g.last()[i]) by {
                assert(in_bounds(g, last, i));
                assert(g.last()[i] == g[last][i]);
            }
        }
        if forall|x: int, y: int| in_bounds(g, x, y) ==> p(#[trigger] g[x][y]) {
            assert forall|x: int, y: int| in_bounds(rest, x, y) implies p(
                #[trigger] rest[x][y],
            ) by {
                assert(in_bounds(g, x, y));
            }
            assert forall|i: int| 0 <= i < g.last().len() implies p(#[trigger] g.last()[i]) by {
                assert(in_bounds(g, last, i));
                assert(g.last()[i] == g[last][i]);
            }
            assert(g.len() * height == rest.len() * height + height) by (nonlinear_arith)
                requires
                    rest.len() == g.len() - 1,
            ;
        }
    }
}

/// Where every cell of a column that satisfies `p` satisfies `q`, no more
/// cells satisfy `p` than `q`, and as many only if the two agree on the
/// column.
pub proof fn lemma_count_in_column_subset(
    col: Seq<Cell>,
    p: spec_fn(Cell) -> bool,
    q: spec_fn(Cell) -> bool,
)
    requires
        forall|i: int| 0 <= i < col.len() ==> p(#[trigger] col[i]) ==> q(col[i]),
    ensures
        count_in_column(col, p) <= count_in_column(col, q),
        count_in_column(col, p) == count_in_column(col, q) <==> forall|i: int|
            0 <= i < col.len() ==> q(#[trigger] col[i]) ==> p(col[i]),
    decreases col.len(),
{
    if col.len() > 0 {
        let rest = col.drop_last();
        assert(forall|i: int| 0 <= i < rest.len() ==> rest[i] == col[i]);
        lemma_count_in_column_subset(rest, p, q);
        assert(col.last() == col[col.len() - 1]);
        if count_in_column(col, p) == count_in_column(col, q) {
            assert forall|i: int| 0 <= i < col.len() && q(#[trigger] col[i]) implies p(col[i]) by {
                if i < rest.len() {
                    assert(rest[i] == col[i]);
                }
            }
        }
    }
}

/// Where every cell of a board that satisfies `p` satisfies `q`, no more
/// cells satisfy `p` than `q`, and as many only if the two agree on the
/// board.
pub proof fn lemma_count_cells_subset(g: Grid, p: spec_fn(Cell) -> bool, q: spec_fn(Cell) -> bool)
    requires
        forall|x: int, y: int| in_bounds(g, x, y) ==> p(#[trigger] g[x][y]) ==> q(g[x][y]),
    ensures
        count_cells(g, p) <= count_cells(g, q),
        count_cells(g, p) == count_cells(g, q) <==> forall|x: int, y: int|
            in_bounds(g, x, y) ==> q(#[trigger] g[x][y]) ==> p(g[x][y]),
    decreases g.len(),
{
    if g.len() > 0 {
        let rest = g.drop_last();
        let last = g.len() - 1;
        assert(forall|x: int| 0 <= x < rest.len() ==> rest[x] == g[x]);
        assert forall|x: int, y: int| in_bounds(rest, x, y) && p(#[trigger] rest[x][y]) implies q(
            rest[x][y],
        ) by {
            assert(in_bounds(g, x, y));
        }
        lemma_count_cells_subset(rest, p, q);
        assert(g.last() == g[last]);
        assert forall|i: int| 0 <= i < g.last().len() && p(#[trigger] g.last()[i]) implies q(
            g.last()[i],
        ) by {
            assert(in_bounds(g, last, i));
            assert(g.last()[i] == g[last][i]);
        }
        lemma_count_in_column_subset(g.last(), p, q);
        if forall|x: int, y: int| in_bounds(g, x, y) ==> q(#[trigger] g[x][y]) ==> p(g[x][y]) {
            assert forall|x: int, y: int| in_bounds(rest, x, y) && q(
                #[trigger] rest[x][y],
            ) implies p(rest[x][y]) by {
                assert(in_bounds(g, x, y));
            }
            assert forall|i: int| 0 <= i < g.last().len() && q(#[trigger] g.last()[i]) implies p(
                g.last()[i],
            ) by {
                assert(in_bounds(g, last, i));
                assert(g.last()[i] == g[last][i]);
            }
        }
        if count_cells(g, p) == count_cells(g, q) {
            assert forall|x: int, y: int| in_bounds(g, x, y) && q(#[trigger] g[x][y]) implies p(
                g[x][y],
            ) by {
                if x < rest.len() {
                    assert(in_bounds(rest, x, y));
                    assert(rest[x][y] == g[x][y]);
                } else {
                    assert(g.last()[y] == g[x][y]);
                }
            }
        }
    }
}

/// Counting the first `y + 1` cells of a column adds the cell at `y` to the
/// count of the first `y`.
pub proof fn lemma_count_in_column_take(col: Seq<Cell>, y: int, p: spec_fn(Cell) -> bool)
    requires
        0 <= y < col.len(),
    ensures
        count_in_column(col.take(y + 1), p) == count_in_column(col.take(y), p) + (if p(col[y]) {
            1nat
        } else {
            0nat
        }),
        count_in_column(col.take(0), p) == 0,
        col.take(col.len() as int) == col,
{
    assert(col.take(y + 1).drop_last() =~= col.take(y));
    assert(col.take(col.len() as int) =~= col);
}

/// Counting the first `x + 1` columns of a board adds column `x` to the
/// count of the first `x`.
pub proof fn lemma_count_cells_take(g: Grid, x: int, p: spec_fn(Cell) -> bool)
    requires
        0 <= x < g.len(),
    ensures
        count_cells(g.take(x + 1), p) == count_cells(g.take(x), p) + count_in_column(g[x], p),
        count_cells(g.take(0), p) == 0,
        g.take(g.len() as int) == g,
{
    assert(g.take(x + 1).drop_last() =~= g.take(x));
    assert(g.take(g.len() as int) =~= g);
}

/// Where every cell of a column satisfies exactly one of `p` and `q`, the two
/// counts add up to the column's length.
pub proof fn lemma_count_in_column_split(
    col: Seq<Cell>,
    p: spec_fn(Cell) -> bool,
    q: spec_fn(Cell) -> bool,
)
    requires
        forall|i: int| 0 <= i < col.len() ==> p(#[trigger] col[i]) != q(col[i]),
    ensures
        count_in_column(col, p) + count_in_column(col, q) == col.len(),
    decreases col.len(),
{
    if col.len() > 0 {
        let rest = col.drop_last();
        assert(forall|i: int| 0 <= i < rest.len() ==> rest[i] == col[i]);
        lemma_count_in_column_split(rest, p, q);
        assert(col.last() == col[col.len() - 1]);
    }
}

/// Where every cell of a board satisfies exactly one of `p` and `q`, the two
/// counts add up to the number of cells.
pub proof fn lemma_count_cells_split(
    g: Grid,
    height: int,
    p: spec_fn(Cell) -> bool,
    q: spec_fn(Cell) -> bool,
)
    requires
        rectangular(g, g.len() as int, height),
        forall|x: int, y: int| in_bounds(g, x, y) ==> p(#[trigger] g[x][y]) != q(g[x][y]),
    ensures
        count_cells(g, p) + count_cells(g, q) == g.len() * height,
    decreases g.len(),
{
    if g.len() > 0 {
        let rest = g.drop_last();
        let last = g.len() - 1;
        assert(forall|x: int| 0 <= x < rest.len() ==> rest[x] == g[x]);
        assert(rectangular(rest, rest.len() as int, height));
        assert forall|x: int, y: int| in_bounds(rest, x, y) implies p(#[trigger] rest[x][y]) != q(
            rest[x][y],
        ) by {
            assert(in_bounds(g, x, y));
        }
        lemma_count_cells_split(rest, height, p, q);
        assert(g.last() == g[last]);
        assert forall|i: int| 0 <= i < g.last().len() implies p(#[trigger] g.last()[i]) != q(
            g.last()[i],
        ) by {
            assert(in_bounds(g, last, i));
            assert(g.last()[i] == g[last][i]);
        }
        lemma_count_in_column_split(g.last(), p, q);
        assert(g.len() * height == rest.len() * height + height) by (nonlinear_arith)
            requires
                rest.len() == g.len() - 1,
        ;
    }
}

/// Boards with the same mines have the same number of mines around each
/// position.
pub proof fn lemma_same_mines_neighbors(a: Grid, b: Grid, x: int, y: int)
    requires
        same_mines(a, b),
    ensures
        neighbor_mines(a, x, y) == neighbor_mines(b, x, y),
{
    assert forall|i: int, j: int| mine_at(a, i, j) == mine_at(b, i, j) by {
        if 0 <= i < a.len() {
            assert(a[i].len() == b[i].len());
            if 0 <= j < a[i].len() {
                assert(in_bounds(a, i, j));
                assert(a[i][j].has_mine == b[i][j].has_mine);
            }
        }
    }
}

/// Columns of the same length on whose cells `p` agrees have the same
/// count.
pub proof fn lemma_count_in_column_agree(a: Seq<Cell>, b: Seq<Cell>, p: spec_fn(Cell) -> bool)
    requires
        a.len() == b.len(),
        forall|i: int| 0 <= i < a.len() ==> p(#[trigger] a[i]) == p(b[i]),
    ensures
        count_in_column(a, p) == count_in_column(b, p),
    decreases a.len(),
{
    if a.len() > 0 {
        let ra = a.drop_last();
        let rb = b.drop_last();
        assert forall|i: int| 0 <= i < ra.len() implies p(#[trigger] ra[i]) == p(rb[i]) by {
            assert(ra[i] == a[i] && rb[i] == b[i]);
        }
        lemma_count_in_column_agree(ra, rb, p);
        assert(a.last() == a[a.len() - 1]);
        assert(b.last() == b[b.len() - 1]);
    }
}

/// Boards of the same shape on whose cells `p` agrees have the same count.
pub proof fn lemma_count_cells_agree(a: Grid, b: Grid, p: spec_fn(Cell) -> bool)
    requires
        a.len() == b.len(),
        forall|x: int| 0 <= x < a.len() ==> (#[trigger] a[x]).len() == b[x].len(),
        forall|x: int, y: int| in_bounds(a, x, y) ==> p(#[trigger] a[x][y]) == p(b[x][y]),
    ensures
        count_cells(a, p) == count_cells(b, p),
    decreases a.len(),
{
    if a.len() > 0 {
        let ra = a.drop_last();
        let rb = b.drop_last();
        let last = a.len() - 1;
        assert(forall|x: int| 0 <= x < ra.len() ==> ra[x] == a[x] && rb[x] == b[x]);
        assert forall|x: int, y: int| in_bounds(ra, x, y) implies p(#[trigger] ra[x][y]) == p(
            rb[x][y],
        ) by {
            assert(in_bounds(a, x, y));
        }
        lemma_count_cells_agree(ra, rb, p);
        assert(a.last() == a[last] && b.last() == b[last]);
        assert forall|i: int| 0 <= i < a.last().len() implies p(#[trigger] a.last()[i]) == p(
            b.last()[i],
        ) by {
            assert(in_bounds(a, last, i));
            assert(a.last()[i] == a[last][i]);
        }
        lemma_count_in_column_agree(a.last(), b.last(), p);
    }
}

/// Boards with columns of the same lengths have the same shape.
pub proof fn lemma_same_shape(a: Grid, b: Grid)
    requires
        a.len() == b.len(),
        forall|x: int| 0 <= x < a.len() ==> (#[trigger] a[x]).len() == b[x].len(),
    ensures
        forall|width: int, height: int| #[trigger]
            rectangular(a, width, height) ==> rectangular(b, width, height),
{
    assert forall|width: int, height: int| #[trigger]
        rectangular(a, width, height) implies rectangular(b, width, height) by {
        assert forall|x: int| 0 <= x < b.len() implies (#[trigger] b[x]).len() == height by {
            assert(a[x].len() == height);
        }
    }
}

/// A board that differs from one with the right numbers only in its cells'
/// states has the same number of mines, and its numbers are right too.
pub proof fn lemma_same_layout_kept(a: Grid, b: Grid)
    requires
        same_layout(a, b),
    ensures
        mine_count(a) == mine_count(b),
        counts_correct(a) ==> counts_correct(b),
{
    lemma_count_cells_agree(a, b, |c: Cell| is_mine(c));
    if counts_correct(a) {
        assert forall|x: int, y: int| in_bounds(b, x, y) && !(#[trigger] b[x][y]).has_mine implies b[x][y].adjacent_mines
            == neighbor_mines(b, x, y) by {
            assert(a[x].len() == b[x].len());
            assert(in_bounds(a, x, y));
            assert(a[x][y].has_mine == b[x][y].has_mine);
            lemma_same_mines_neighbors(a, b, x, y);
        }
    }
}

/// The cells counted up to a position within the board are no more than
/// the board has cells.
pub proof fn lemma_count_prefix_bound(g: Grid, height: int, x: int, y: int, p: spec_fn(Cell) -> bool)
    requires
        rectangular(g, g.len() as int, height),
        0 <= x < g.len(),
        0 <= y <= height,
    ensures
        count_cells(g.take(x), p) + count_in_column(g[x].take(y), p) <= x * height + y,
        x * height + y <= g.len() * height,
{
    let front = g.take(x);
    assert forall|a: int| 0 <= a < front.len() implies (#[trigger] front[a]).len() == height by {
        assert(front[a] == g[a]);
    }
    lemma_count_cells_bound(front, height, p);
    lemma_count_in_column_bound(g[x].take(y), p);
    assert(x * height + y <= g.len() * height) by (nonlinear_arith)
        requires
            0 <= x < g.len(),
            0 <= y <= height,
    ;
}

/// On a board where no mine has been opened, as many cells are hidden as
/// there are mines exactly when every mine-free cell has been revealed.
pub proof fn lemma_hidden_equals_mines(g: Grid)
    requires
        forall|x: int, y: int| in_bounds(g, x, y) && (#[trigger] g[x][y]).has_mine ==> is_hidden(g[x][y]),
    ensures
        mine_count(g) <= hidden_count(g),
        hidden_count(g) == mine_count(g) <==> forall|x: int, y: int|
            in_bounds(g, x, y) && !(#[trigger] g[x][y]).has_mine ==> g[x][y].state
                == CellState::Revealed,
{
    let p = |c: Cell| is_mine(c);
    let q = |c: Cell| is_hidden(c);
    assert forall|x: int, y: int| in_bounds(g, x, y) && p(#[trigger] g[x][y]) implies q(g[x][y]) by {}
    lemma_count_cells_subset(g, p, q);
    if hidden_count(g) == mine_count(g) {
        assert forall|x: int, y: int| in_bounds(g, x, y) && !(#[trigger] g[x][y]).has_mine implies g[x][y].state
            == CellState::Revealed by {
            if q(g[x][y]) {
                assert(p(g[x][y]));
            }
        }
    }
    if forall|x: int, y: int|
        in_bounds(g, x, y) && !(#[trigger] g[x][y]).has_mine ==> g[x][y].state
            == CellState::Revealed {
        assert forall|x: int, y: int| in_bounds(g, x, y) && q(#[trigger] g[x][y]) implies p(
            g[x][y],
        ) by {}
    }
}

} // verus!
