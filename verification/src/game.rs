//! The game: cells, the board, and the session that a player drives by
//! revealing cells, planting flags and starting new rounds.

use crate::cascade::{
    adjacent, after_cascade, cascade_stage, covered_at, lemma_cascade_done, lemma_cascade_start,
    lemma_cascade_step, lemma_open_neighbor, lemma_settle, lemma_take_pending, opened,
    pending_opened, settled_except, spreads_at, visited_around,
};
use crate::grid::{
    all_covered, count_cells, count_in_column, counts_correct, flag_count, hidden_count,
    in_bounds, in_state, is_flagged, is_hidden, is_mine, lemma_count_cells_bound,
    lemma_count_cells_split, lemma_count_cells_take, lemma_count_cells_uniform,
    lemma_count_cells_update, lemma_count_in_column_take, lemma_count_prefix_bound,
    lemma_same_mines_neighbors, lemma_same_shape, mine_at, mine_count, neighbor_mines, rectangular, same_mines,
    same_states, with_cell, Grid,
};
use crate::random::random_below;
use crate::rules::{
    grid_after_reveal, grid_after_toggle, law_reveal_keeps_layout, law_reveal_keeps_outcome,
    law_toggle_keeps_layout, law_toggle_keeps_outcome, mines_left_after_toggle, next_level,
    next_mines, outcome_fits, state_after_reveal,
};
use std::time::Instant;
use vstd::prelude::*;

verus! {

/// What the player sees of one cell.
#[derive(Clone, Copy, PartialEq, Eq, Structural, Debug)]
pub enum CellState {
    Covered,
    Revealed,
    Flagged,
}

/// One grid position.
#[derive(Clone, Copy, PartialEq, Eq, Structural, Debug)]
pub struct Cell {
    /// Fixed when the board is generated.
    pub has_mine: bool,
    pub state: CellState,
    /// The number of mines among the up to eight neighbours; it means
    /// something only where `has_mine` is false.
    pub adjacent_mines: u8,
}

impl Cell {
    /// A covered cell without a mine and with no mine around it.
    pub fn new() -> (cell: Self)
        ensures
            cell == (Cell { has_mine: false, state: CellState::Covered, adjacent_mines: 0 }),
    {
        Self { has_mine: false, state: CellState::Covered, adjacent_mines: 0 }
    }
}

/// How the round stands.
#[derive(Clone, Copy, PartialEq, Eq, Structural, Debug)]
pub enum GameState {
    Playing,
    Won,
    Lost,
}

/// A session: the board of the current round, its outcome so far, the timer
/// and the difficulty.
pub struct Minesweeper {
    /// `board[x][y]` is the cell in column `x`, row `y`.
    pub board: Vec<Vec<Cell>>,
    pub game_state: GameState,
    /// When the first input of the round came; `None` until then.
    pub start_time: Option<Instant>,
    /// Whole seconds played in this round, as of the last `update_timer`.
    pub elapsed_time: u64,
    /// Mines minus flags; negative once there are more flags than mines.
    pub mines_left: i32,
    pub width: usize,
    pub height: usize,
    /// The number of mines of the current round.
    pub mines: usize,
    /// The number of mines that the session was set up with, to which a
    /// lost round returns.
    pub base_mines: usize,
    pub level: usize,
}

/// The board that a vector of columns stands for.
pub open spec fn grid_of(board: Vec<Vec<Cell>>) -> Grid {
    Seq::new(board@.len(), |x: int| board@[x]@)
}

/// No cell of `g` holds a mine, a number or a flag, and none is revealed.
pub open spec fn blank(g: Grid) -> bool {
    forall|x: int, y: int|
        in_bounds(g, x, y) ==> #[trigger] g[x][y] == (Cell {
            has_mine: false,
            state: CellState::Covered,
            adjacent_mines: 0,
        })
}

/// No cell of `g` holds a number or a flag and none is revealed: the board
/// as it is while the mines are being laid.
pub open spec fn bare(g: Grid) -> bool {
    forall|x: int, y: int|
        in_bounds(g, x, y) ==> (#[trigger] g[x][y]).state == CellState::Covered
            && g[x][y].adjacent_mines == 0
}

/// The cell `c` with a mine in it.
pub open spec fn mined(c: Cell) -> Cell {
    Cell { has_mine: true, state: c.state, adjacent_mines: c.adjacent_mines }
}

/// How many mine-free cells of `g` come before `(x, y)`, column by column.
pub open spec fn free_before(g: Grid, x: int, y: int) -> nat {
    count_cells(g.take(x), |c: Cell| !is_mine(c)) + count_in_column(
        g[x].take(y),
        |c: Cell| !is_mine(c),
    )
}

/// The positions can be the mines of a board of this shape: the board is
/// not too large for the mine counter, every position lies on it, and none
/// occurs twice.
pub open spec fn valid_layout(width: int, height: int, positions: Seq<(usize, usize)>) -> bool {
    &&& width * height <= i32::MAX
    &&& forall|i: int|
        0 <= i < positions.len() ==> (#[trigger] positions[i]).0 < width && positions[i].1
            < height
    &&& forall|i: int, j: int|
        0 <= i < j < positions.len() ==> #[trigger] positions[i] != #[trigger] positions[j]
}

/// Board generation draws random positions and discards those that hold a
/// mine already. It makes at most this many draws per cell of the board; the
/// mines that are still missing then are each drawn among the mine-free
/// cells alone, so that generation always ends.
pub const DRAWS_PER_CELL: u64 = 32;

/// The work list of a reveal as positions on the board.
pub open spec fn cells_of(pending: Seq<(usize, usize)>) -> Seq<(int, int)> {
    Seq::new(pending.len(), |i: int| (pending[i].0 as int, pending[i].1 as int))
}

/// Every mine-free cell of `g` that comes before `(x, y)`, column by column,
/// carries the number of mines that `g0` has around it.
pub open spec fn numbered_before(g0: Grid, g: Grid, x: int, y: int) -> bool {
    forall|a: int, b: int|
        in_bounds(g, a, b) && (a < x || (a == x && b < y)) && !(#[trigger] g[a][b]).has_mine
            ==> g[a][b].adjacent_mines == neighbor_mines(g0, a, b)
}

/// A board of `width` columns and `height` rows of fresh cells.
fn blank_board(width: usize, height: usize) -> (board: Vec<Vec<Cell>>)
    ensures
        rectangular(grid_of(board), width as int, height as int),
        blank(grid_of(board)),
{
    let mut board: Vec<Vec<Cell>> = Vec::new();
    let mut x: usize = 0;
    while x < width
        invariant
            x <= width,
            board@.len() == x,
            forall|a: int| 0 <= a < x ==> (#[trigger] board@[a])@.len() == height,
            forall|a: int, b: int|
                0 <= a < x && 0 <= b < height ==> #[trigger] board@[a]@[b] == (Cell {
                    has_mine: false,
                    state: CellState::Covered,
                    adjacent_mines: 0,
                }),
        decreases width - x,
    {
        let mut column: Vec<Cell> = Vec::new();
        let mut y: usize = 0;
        while y < height
            invariant
                y <= height,
                column@.len() == y,
                forall|b: int|
                    0 <= b < y ==> #[trigger] column@[b] == (Cell {
                        has_mine: false,
                        state: CellState::Covered,
                        adjacent_mines: 0,
                    }),
            decreases height - y,
        {
            column.push(Cell::new());
            y += 1;
        }
        board.push(column);
        x += 1;
    }
    board
}

/// Puts `cell` at `(x, y)`.
fn set_cell(board: &mut Vec<Vec<Cell>>, x: usize, y: usize, cell: Cell)
    requires
        in_bounds(grid_of(*old(board)), x as int, y as int),
    ensures
        grid_of(*final(board)) == with_cell(grid_of(*old(board)), x as int, y as int, cell),
        forall|width: int, height: int| #[trigger]
            rectangular(grid_of(*old(board)), width, height) ==> rectangular(
                grid_of(*final(board)),
                width,
                height,
            ),
{
    board[x][y] = cell;
    assert(grid_of(*board) =~~= with_cell(grid_of(*old(board)), x as int, y as int, cell));
    proof {
        lemma_same_shape(grid_of(*old(board)), grid_of(*board));
    }
}

impl Minesweeper {
    /// The board as a value.
    pub open spec fn grid(&self) -> Grid {
        grid_of(self.board)
    }

    /// The session is consistent: the board has the session's shape and
    /// number of mines, its numbers are right, and the counter shows the
    /// mines less the flags.
    pub open spec fn wf(&self) -> bool {
        &&& rectangular(self.grid(), self.width as int, self.height as int)
        &&& self.width * self.height <= i32::MAX
        &&& mine_count(self.grid()) == self.mines
        &&& counts_correct(self.grid())
        &&& self.mines_left == self.mines - flag_count(self.grid())
    }

    /// The outcome fits the board: while play is on no mine has been
    /// opened, a round is won with no mine opened and only the mines
    /// hidden, and a round is lost with a mine opened. Every new round has
    /// this, and reveals made while play is on and flags keep it. A reveal
    /// made after the round is over opens cells and leaves the outcome as it
    /// is, so that the board may no longer fit it.
    pub open spec fn outcome_fits(&self) -> bool {
        outcome_fits(self.grid(), self.game_state, self.mines as int)
    }

    /// A round that has just begun: play is on, the timer has not started,
    /// every cell is covered and the counter shows all the mines.
    pub open spec fn fresh_round(&self) -> bool {
        &&& self.game_state == GameState::Playing
        &&& self.start_time is None
        &&& self.elapsed_time == 0
        &&& self.mines_left == self.mines
        &&& all_covered(self.grid())
    }

    /// The session's shape and difficulty are those of `before`.
    pub open spec fn same_setup(&self, before: Self) -> bool {
        &&& self.width == before.width
        &&& self.height == before.height
        &&& self.mines == before.mines
        &&& self.base_mines == before.base_mines
        &&& self.level == before.level
    }

    /// The timer is as it was in `before`.
    pub open spec fn same_timer(&self, before: Self) -> bool {
        &&& self.start_time == before.start_time
        &&& self.elapsed_time == before.elapsed_time
    }

    /// Nothing but the board differs from `before`.
    pub open spec fn same_but_board(&self, before: Self) -> bool {
        &&& self.same_setup(before)
        &&& self.same_timer(before)
        &&& self.game_state == before.game_state
        &&& self.mines_left == before.mines_left
    }

    /// Nothing but the timer differs from `before`.
    pub open spec fn same_but_timer(&self, before: Self) -> bool {
        &&& self.same_setup(before)
        &&& self.board == before.board
        &&& self.game_state == before.game_state
        &&& self.mines_left == before.mines_left
    }

    /// The timer runs, since the moment it was started in `before` if it ran
    /// there, and shows the seconds that it showed in `before`.
    pub open spec fn timer_started_from(&self, before: Self) -> bool {
        &&& self.elapsed_time == before.elapsed_time
        &&& self.start_time is Some
        &&& before.start_time is Some ==> self.start_time == before.start_time
    }

    /// The session is `before` after a reveal at `(x, y)`, the timer aside.
    pub open spec fn revealed_from(&self, before: Self, x: int, y: int) -> bool {
        &&& self.same_setup(before)
        &&& self.mines_left == before.mines_left
        &&& self.grid() == grid_after_reveal(before.grid(), x, y)
        &&& self.game_state == state_after_reveal(
            before.grid(),
            x,
            y,
            before.game_state,
            before.mines as int,
        )
    }

    /// The session is `before` after the flag at `(x, y)` has been toggled,
    /// the timer aside.
    pub open spec fn flag_toggled_from(&self, before: Self, x: int, y: int) -> bool {
        &&& self.same_setup(before)
        &&& self.game_state == before.game_state
        &&& self.grid() == grid_after_toggle(before.grid(), x, y)
        &&& self.mines_left == mines_left_after_toggle(
            before.grid(),
            x,
            y,
            before.mines_left as int,
        )
    }

    /// 1 if the position one step from `(x, y)` in the direction
    /// `(dx, dy)` is on the board and holds a mine, else 0.
    fn mine_near(&self, x: usize, y: usize, dx: i32, dy: i32) -> (n: u8)
        requires
            rectangular(self.grid(), self.width as int, self.height as int),
            x < self.width,
            y < self.height,
            -1 <= dx <= 1,
            -1 <= dy <= 1,
        ensures
            n == mine_at(self.grid(), x + dx, y + dy),
    {
        if (dx < 0 && x == 0) || (dx > 0 && x + 1 >= self.width) {
            return 0;
        }
        if (dy < 0 && y == 0) || (dy > 0 && y + 1 >= self.height) {
            return 0;
        }
        let nx: usize = if dx < 0 {
            x - 1
        } else if dx > 0 {
            x + 1
        } else {
            x
        };
        let ny: usize = if dy < 0 {
            y - 1
        } else if dy > 0 {
            y + 1
        } else {
            y
        };
        assert(in_bounds(self.grid(), nx as int, ny as int));
        if self.board[nx][ny].has_mine {
            1
        } else {
            0
        }
    }

    /// The number of mines among the neighbours of `(x, y)` that lie on the
    /// board.
    pub fn count_adjacent_mines(&self, x: usize, y: usize) -> (count: u8)
        requires
            rectangular(self.grid(), self.width as int, self.height as int),
            x < self.width,
            y < self.height,
        ensures
            count == neighbor_mines(self.grid(), x as int, y as int),
    {
        let mut count: u8 = 0;
        count = count + self.mine_near(x, y, -1, -1);
        count = count + self.mine_near(x, y, -1, 0);
        count = count + self.mine_near(x, y, -1, 1);
        count = count + self.mine_near(x, y, 0, -1);
        count = count + self.mine_near(x, y, 0, 1);
        count = count + self.mine_near(x, y, 1, -1);
        count = count + self.mine_near(x, y, 1, 0);
        count = count + self.mine_near(x, y, 1, 1);
        count
    }

    /// Writes into every mine-free cell the number of mines around it.
    fn number_cells(&mut self)
        requires
            rectangular(old(self).grid(), old(self).width as int, old(self).height as int),
        ensures
            final(self).same_but_board(*old(self)),
            rectangular(final(self).grid(), final(self).width as int, final(self).height as int),
            same_mines(old(self).grid(), final(self).grid()),
            same_states(old(self).grid(), final(self).grid()),
            mine_count(final(self).grid()) == mine_count(old(self).grid()),
            counts_correct(final(self).grid()),
    {
        let ghost g0 = self.grid();
        let mut x: usize = 0;
        while x < self.width
            invariant
                x <= self.width,
                self.same_but_board(*old(self)),
                rectangular(self.grid(), self.width as int, self.height as int),
                same_mines(g0, self.grid()),
                same_states(g0, self.grid()),
                mine_count(self.grid()) == mine_count(g0),
                numbered_before(g0, self.grid(), x as int, 0),
            decreases self.width - x,
        {
            let mut y: usize = 0;
            while y < self.height
                invariant
                    x < self.width,
                    y <= self.height,
                    self.same_but_board(*old(self)),
                    rectangular(self.grid(), self.width as int, self.height as int),
                    same_mines(g0, self.grid()),
                    same_states(g0, self.grid()),
                    mine_count(self.grid()) == mine_count(g0),
                    numbered_before(g0, self.grid(), x as int, y as int),
                decreases self.height - y,
            {
                assert(in_bounds(self.grid(), x as int, y as int));
                let cell = self.board[x][y];
                if !cell.has_mine {
                    let n: u8 = self.count_adjacent_mines(x, y);
                    let ghost g = self.grid();
                    let numbered = Cell {
                        has_mine: cell.has_mine,
                        state: cell.state,
                        adjacent_mines: n,
                    };
                    proof {
                        lemma_same_mines_neighbors(g0, g, x as int, y as int);
                        lemma_count_cells_update(
                            g,
                            x as int,
                            y as int,
                            numbered,
                            |c: Cell| is_mine(c),
                        );
                    }
                    set_cell(&mut self.board, x, y, numbered);
                    assert(numbered_before(g0, self.grid(), x as int, y + 1)) by {
                        let h = self.grid();
                        assert forall|a: int, b: int|
                            in_bounds(h, a, b) && (a < x || (a == x && b < y + 1)) && !(
                            #[trigger] h[a][b]).has_mine implies h[a][b].adjacent_mines
                            == neighbor_mines(g0, a, b) by {
                            if a == x && b == y {
                            } else {
                                assert(h[a][b] == g[a][b]);
                                assert(in_bounds(g, a, b));
                            }
                        }
                    }
                }
                y += 1;
            }
            x += 1;
        }
        proof {
            let g = self.grid();
            assert forall|a: int, b: int| in_bounds(g, a, b) && !(#[trigger] g[a][b]).has_mine implies g[a][b].adjacent_mines
                == neighbor_mines(g, a, b) by {
                lemma_same_mines_neighbors(g0, g, a, b);
            }
        }
    }

    /// Lays a mine at the mine-free cell `(x, y)`.
    fn place_mine(&mut self, x: usize, y: usize)
        requires
            rectangular(old(self).grid(), old(self).width as int, old(self).height as int),
            x < old(self).width,
            y < old(self).height,
            !old(self).grid()[x as int][y as int].has_mine,
        ensures
            final(self).same_but_board(*old(self)),
            final(self).grid() == with_cell(
                old(self).grid(),
                x as int,
                y as int,
                mined(old(self).grid()[x as int][y as int]),
            ),
            rectangular(final(self).grid(), final(self).width as int, final(self).height as int),
            mine_count(final(self).grid()) == mine_count(old(self).grid()) + 1,
            bare(old(self).grid()) ==> bare(final(self).grid()),
    {
        assert(in_bounds(self.grid(), x as int, y as int));
        let cell = self.board[x][y];
        let with_mine = Cell { has_mine: true, state: cell.state, adjacent_mines: cell.adjacent_mines };
        proof {
            lemma_count_cells_update(self.grid(), x as int, y as int, with_mine, |c: Cell| is_mine(c));
        }
        set_cell(&mut self.board, x, y, with_mine);
        proof {
            let g = old(self).grid();
            let h = self.grid();
            if bare(g) {
                assert forall|a: int, b: int| in_bounds(h, a, b) implies (#[trigger] h[a][b]).state
                    == CellState::Covered && h[a][b].adjacent_mines == 0 by {
                    assert(in_bounds(g, a, b));
                    assert(g[a][b].state == CellState::Covered);
                }
            }
        }
    }

    /// One step of laying the mines: takes the drawn position `(x, y)`, lays
    /// a mine there unless the cell holds one already, and says whether it
    /// did. A draw that hits a mine changes nothing. The numbers on the board
    /// and the session's count of mines are left as they are.
    pub fn lay_if_free(&mut self, x: usize, y: usize) -> (placed: bool)
        requires
            rectangular(old(self).grid(), old(self).width as int, old(self).height as int),
            x < old(self).width,
            y < old(self).height,
        ensures
            placed == !old(self).grid()[x as int][y as int].has_mine,
            final(self).grid() == if placed {
                with_cell(
                    old(self).grid(),
                    x as int,
                    y as int,
                    mined(old(self).grid()[x as int][y as int]),
                )
            } else {
                old(self).grid()
            },
            final(self).same_but_board(*old(self)),
            rectangular(final(self).grid(), final(self).width as int, final(self).height as int),
            mine_count(final(self).grid()) == mine_count(old(self).grid()) + if placed {
                1int
            } else {
                0int
            },
            bare(old(self).grid()) ==> bare(final(self).grid()),
    {
        assert(in_bounds(self.grid(), x as int, y as int));
        if self.board[x][y].has_mine {
            false
        } else {
            self.place_mine(x, y);
            true
        }
    }

    /// The mine-free cell that has exactly `n` mine-free cells before it,
    /// column by column.
    pub fn find_nth_free(&self, n: usize) -> (pos: (usize, usize))
        requires
            rectangular(self.grid(), self.width as int, self.height as int),
            n < self.width * self.height - mine_count(self.grid()),
        ensures
            pos.0 < self.width,
            pos.1 < self.height,
            !self.grid()[pos.0 as int][pos.1 as int].has_mine,
            free_before(self.grid(), pos.0 as int, pos.1 as int) == n,
    {
        let ghost g = self.grid();
        let ghost free = |c: Cell| !is_mine(c);
        let mut seen: usize = 0;
        let mut x: usize = 0;
        proof {
            if self.width > 0 {
                lemma_count_cells_take(g, 0, free);
            }
        }
        while x < self.width
            invariant
                x <= self.width,
                g == self.grid(),
                free == |c: Cell| !is_mine(c),
                rectangular(g, self.width as int, self.height as int),
                seen == count_cells(g.take(x as int), free),
                seen <= n,
            decreases self.width - x,
        {
            let mut y: usize = 0;
            proof {
                if self.height > 0 {
                    lemma_count_in_column_take(g[x as int], 0, free);
                } else {
                    assert(g[x as int].take(0).len() == 0);
                }
            }
            while y < self.height
                invariant
                    x < self.width,
                    y <= self.height,
                    g == self.grid(),
                    free == |c: Cell| !is_mine(c),
                    rectangular(g, self.width as int, self.height as int),
                    seen == count_cells(g.take(x as int), free) + count_in_column(
                        g[x as int].take(y as int),
                        free,
                    ),
                    seen <= n,
                decreases self.height - y,
            {
                assert(in_bounds(g, x as int, y as int));
                proof {
                    lemma_count_in_column_take(g[x as int], y as int, free);
                }
                if !self.board[x][y].has_mine {
                    if seen == n {
                        return (x, y);
                    }
                    seen += 1;
                }
                y += 1;
            }
            proof {
                lemma_count_cells_take(g, x as int, free);
                assert(g[x as int].take(self.height as int) =~= g[x as int]);
            }
            x += 1;
        }
        proof {
            assert(g.take(self.width as int) =~= g);
            assert forall|a: int, b: int| in_bounds(g, a, b) implies (|c: Cell| is_mine(c))(
                #[trigger] g[a][b],
            ) != free(g[a][b]) by {}
            lemma_count_cells_split(g, self.height as int, |c: Cell| is_mine(c), free);
            assert(false);
        }
        (0, 0)
    }

    /// Lays `mines` mines on the blank board and numbers the other cells.
    /// Each mine goes to a position drawn at random; a draw that hits a mine
    /// is discarded and made again. Should the draws run out (see
    /// `DRAWS_PER_CELL`), each missing mine goes to a cell drawn at random
    /// among the free ones.
    pub fn generate_board(&mut self)
        requires
            rectangular(old(self).grid(), old(self).width as int, old(self).height as int),
            blank(old(self).grid()),
            old(self).width * old(self).height <= i32::MAX,
            old(self).mines <= old(self).width * old(self).height,
        ensures
            final(self).same_but_board(*old(self)),
            rectangular(final(self).grid(), final(self).width as int, final(self).height as int),
            mine_count(final(self).grid()) == final(self).mines,
            counts_correct(final(self).grid()),
            all_covered(final(self).grid()),
    {
        let area: usize = self.width * self.height;
        let limit: u64 = (area as u64) * DRAWS_PER_CELL;
        proof {
            let g = self.grid();
            assert forall|x: int, y: int| in_bounds(g, x, y) implies !(|c: Cell| is_mine(c))(
                #[trigger] g[x][y],
            ) by {}
            lemma_count_cells_uniform(g, self.height as int, |c: Cell| is_mine(c));
        }
        let mut rng = rand::thread_rng();
        let mut mines_placed: usize = 0;
        let mut draws: u64 = 0;
        while mines_placed < self.mines && draws < limit
            invariant
                self.same_but_board(*old(self)),
                rectangular(self.grid(), self.width as int, self.height as int),
                bare(self.grid()),
                mine_count(self.grid()) == mines_placed,
                mines_placed <= self.mines,
                self.mines <= self.width * self.height,
                draws <= limit,
            decreases limit - draws,
        {
            assert(self.width > 0 && self.height > 0) by (nonlinear_arith)
                requires
                    self.width * self.height > 0,
            ;
            let x: usize = random_below(&mut rng, self.width);
            let y: usize = random_below(&mut rng, self.height);
            if self.lay_if_free(x, y) {
                mines_placed += 1;
            }
            draws += 1;
        }
        while mines_placed < self.mines
            invariant
                self.same_but_board(*old(self)),
                rectangular(self.grid(), self.width as int, self.height as int),
                bare(self.grid()),
                mine_count(self.grid()) == mines_placed,
                mines_placed <= self.mines,
                self.mines <= self.width * self.height,
                area == self.width * self.height,
            decreases self.mines - mines_placed,
        {
            let n: usize = random_below(&mut rng, area - mines_placed);
            let (x, y) = self.find_nth_free(n);
            self.place_mine(x, y);
            mines_placed += 1;
        }
        let ghost laid = self.grid();
        self.number_cells();
        proof {
            let g = self.grid();
            assert forall|x: int, y: int| in_bounds(g, x, y) implies (#[trigger] g[x][y]).state
                == CellState::Covered by {
                assert(in_bounds(laid, x, y));
                assert(laid[x][y].state == CellState::Covered);
            }
        }
    }

    /// A session on a board of `width` columns and `height` rows with
    /// `mines` mines laid at random, at level 1, every cell covered.
    pub fn new(width: usize, height: usize, mines: usize) -> (game: Self)
        requires
            width * height <= i32::MAX,
            mines <= width * height,
        ensures
            game.wf(),
            game.fresh_round(),
            game.outcome_fits(),
            game.width == width,
            game.height == height,
            game.mines == mines,
            game.base_mines == mines,
            game.level == 1,
    {
        let mut game = Self {
            board: blank_board(width, height),
            game_state: GameState::Playing,
            start_time: None,
            elapsed_time: 0,
            mines_left: mines as i32,
            width,
            height,
            mines,
            base_mines: mines,
            level: 1,
        };
        game.generate_board();
        proof {
            lemma_no_flags(game.grid(), height as int);
        }
        game
    }

    /// A session on a board of `width` columns and `height` rows whose mines
    /// lie at `positions`, at level 1, every cell covered; `None` where the
    /// positions are no valid layout for such a board.
    pub fn with_mines(width: usize, height: usize, positions: &Vec<(usize, usize)>) -> (game:
        Option<Self>)
        ensures
            game is Some <==> valid_layout(width as int, height as int, positions@),
            game matches Some(g) ==> {
                &&& g.wf()
                &&& g.fresh_round()
                &&& g.outcome_fits()
                &&& g.width == width
                &&& g.height == height
                &&& g.mines == positions.len()
                &&& g.base_mines == positions.len()
                &&& g.level == 1
                &&& forall|x: int, y: int|
                    in_bounds(g.grid(), x, y) ==> ((#[trigger] g.grid()[x][y]).has_mine
                        <==> positions@.contains((x as usize, y as usize)))
            },
    {
        let area: usize = match width.checked_mul(height) {
            Some(area) => area,
            None => {
                return None;
            },
        };
        if area > i32::MAX as usize {
            return None;
        }
        let mut game = Self {
            board: blank_board(width, height),
            game_state: GameState::Playing,
            start_time: None,
            elapsed_time: 0,
            mines_left: 0,
            width,
            height,
            mines: 0,
            base_mines: 0,
            level: 1,
        };
        proof {
            let g = game.grid();
            assert forall|x: int, y: int| in_bounds(g, x, y) implies !(|c: Cell| is_mine(c))(
                #[trigger] g[x][y],
            ) by {}
            lemma_count_cells_uniform(g, height as int, |c: Cell| is_mine(c));
        }
        let mut i: usize = 0;
        while i < positions.len()
            invariant
                i <= positions.len(),
                width * height <= i32::MAX,
                game.width == width,
                game.height == height,
                game.level == 1,
                game.game_state == GameState::Playing,
                game.start_time is None,
                game.elapsed_time == 0,
                rectangular(game.grid(), width as int, height as int),
                bare(game.grid()),
                mine_count(game.grid()) == i,
                valid_layout(width as int, height as int, positions@.take(i as int)),
                forall|x: int, y: int|
                    in_bounds(game.grid(), x, y) ==> ((#[trigger] game.grid()[x][y]).has_mine
                        <==> positions@.take(i as int).contains((x as usize, y as usize))),
            decreases positions.len() - i,
        {
            let (x, y) = positions[i];
            let ghost seen = positions@.take(i as int);
            let ghost next = positions@.take(i + 1);
            assert(next =~= seen.push((x, y)));
            if x >= width || y >= height {
                assert(!valid_layout(width as int, height as int, positions@)) by {
                    assert(positions@[i as int] == (x, y));
                }
                return None;
            }
            assert(in_bounds(game.grid(), x as int, y as int));
            if game.board[x][y].has_mine {
                assert(!valid_layout(width as int, height as int, positions@)) by {
                    assert(seen.contains((x, y)));
                    let k = choose|k: int| 0 <= k < seen.len() && seen[k] == (x, y);
                    assert(positions@[k] == positions@[i as int]);
                }
                return None;
            }
            let ghost g = game.grid();
            game.place_mine(x, y);
            proof {
                let h = game.grid();
                assert forall|a: int, b: int| in_bounds(h, a, b) implies ((#[trigger] h[a][b]).has_mine
                    <==> next.contains((a as usize, b as usize))) by {
                    assert(in_bounds(g, a, b));
                    if a == x && b == y {
                        assert(next[i as int] == (x, y));
                    } else {
                        assert(h[a][b] == g[a][b]);
                        if seen.contains((a as usize, b as usize)) {
                            let k = choose|k: int|
                                0 <= k < seen.len() && seen[k] == (a as usize, b as usize);
                            assert(next[k] == (a as usize, b as usize));
                        }
                        if next.contains((a as usize, b as usize)) {
                            let k = choose|k: int|
                                0 <= k < next.len() && next[k] == (a as usize, b as usize);
                            assert(k < i);
                            assert(seen[k] == (a as usize, b as usize));
                        }
                    }
                }
                assert(valid_layout(width as int, height as int, next)) by {
                    assert forall|p: int, q: int| 0 <= p < q < next.len() implies #[trigger] next[p]
                        != #[trigger] next[q] by {
                        if q == i {
                            if next[p] == next[q] {
                                assert(seen[p] == (x, y));
                                assert(seen.contains((x, y)));
                            }
                        } else {
                            assert(seen[p] != seen[q]);
                        }
                    }
                }
            }
            i += 1;
        }
        proof {
            assert(positions@.take(positions.len() as int) =~= positions@);
            lemma_count_cells_bound(game.grid(), height as int, |c: Cell| is_mine(c));
        }
        game.mines = positions.len();
        game.base_mines = positions.len();
        game.mines_left = positions.len() as i32;
        let ghost laid = game.grid();
        game.number_cells();
        proof {
            let g = game.grid();
            assert forall|x: int, y: int| in_bounds(g, x, y) implies (#[trigger] g[x][y]).state
                == CellState::Covered by {
                assert(in_bounds(laid, x, y));
                assert(laid[x][y].state == CellState::Covered);
            }
            assert forall|x: int, y: int| in_bounds(g, x, y) implies ((#[trigger] g[x][y]).has_mine
                <==> positions@.contains((x as usize, y as usize))) by {
                assert(in_bounds(laid, x, y));
                assert(laid[x][y].has_mine == g[x][y].has_mine);
            }
            lemma_no_flags(g, height as int);
        }
        Some(game)
    }

    /// Starts a new round. After a win it is one level up with twice the
    /// mines, after a loss it is back at level 1 with the session's first
    /// number of mines, and a round that is given up is played again as it
    /// was; in every case at least nine cells of the board stay free of
    /// mines.
    pub fn new_game(&mut self)
        requires
            old(self).wf(),
            old(self).width * old(self).height >= 9,
            old(self).game_state == GameState::Won ==> old(self).level < usize::MAX,
        ensures
            final(self).wf(),
            final(self).fresh_round(),
            final(self).outcome_fits(),
            final(self).width == old(self).width,
            final(self).height == old(self).height,
            final(self).base_mines == old(self).base_mines,
            final(self).level == next_level(old(self).game_state, old(self).level as int),
            final(self).mines == next_mines(
                old(self).game_state,
                old(self).mines as int,
                old(self).base_mines as int,
                old(self).width * old(self).height,
            ),
    {
        proof {
            lemma_count_cells_bound(self.grid(), self.height as int, |c: Cell| is_mine(c));
        }
        match self.game_state {
            GameState::Won => {
                self.level += 1;
                self.mines *= 2;
            },
            GameState::Lost => {
                self.level = 1;
                self.mines = self.base_mines;
            },
            GameState::Playing => {},
        }
        let max_mines: usize = self.width * self.height - 9;
        if self.mines > max_mines {
            self.mines = max_mines;
        }
        self.board = blank_board(self.width, self.height);
        self.game_state = GameState::Playing;
        self.start_time = None;
        self.elapsed_time = 0;
        self.mines_left = self.mines as i32;
        self.generate_board();
        proof {
            lemma_no_flags(self.grid(), self.height as int);
        }
    }

    /// The number of cells that are covered or flagged.
    fn count_hidden(&self) -> (count: usize)
        requires
            rectangular(self.grid(), self.width as int, self.height as int),
            self.width * self.height <= i32::MAX,
        ensures
            count == hidden_count(self.grid()),
    {
        let ghost g = self.grid();
        let ghost hidden = |c: Cell| is_hidden(c);
        let mut count: usize = 0;
        let mut x: usize = 0;
        proof {
            if self.width > 0 {
                lemma_count_cells_take(g, 0, hidden);
            }
        }
        while x < self.width
            invariant
                x <= self.width,
                g == self.grid(),
                hidden == |c: Cell| is_hidden(c),
                rectangular(g, self.width as int, self.height as int),
                self.width * self.height <= i32::MAX,
                count == count_cells(g.take(x as int), hidden),
            decreases self.width - x,
        {
            let mut y: usize = 0;
            proof {
                if self.height > 0 {
                    lemma_count_in_column_take(g[x as int], 0, hidden);
                } else {
                    assert(g[x as int].take(0).len() == 0);
                }
            }
            while y < self.height
                invariant
                    x < self.width,
                    y <= self.height,
                    g == self.grid(),
                    hidden == |c: Cell| is_hidden(c),
                    rectangular(g, self.width as int, self.height as int),
                    self.width * self.height <= i32::MAX,
                    count == count_cells(g.take(x as int), hidden) + count_in_column(
                        g[x as int].take(y as int),
                        hidden,
                    ),
                decreases self.height - y,
            {
                assert(in_bounds(g, x as int, y as int));
                proof {
                    lemma_count_in_column_take(g[x as int], y as int, hidden);
                    lemma_count_prefix_bound(g, self.height as int, x as int, y as int, hidden);
                }
                if self.board[x][y].state != CellState::Revealed {
                    count += 1;
                }
                y += 1;
            }
            proof {
                lemma_count_cells_take(g, x as int, hidden);
                assert(g[x as int].take(self.height as int) =~= g[x as int]);
            }
            x += 1;
        }
        proof {
            assert(g.take(self.width as int) =~= g);
        }
        count
    }

    /// Declares the round won if as many cells are hidden as there are
    /// mines.
    pub fn check_win_condition(&mut self)
        requires
            rectangular(old(self).grid(), old(self).width as int, old(self).height as int),
            old(self).width * old(self).height <= i32::MAX,
        ensures
            final(self).same_setup(*old(self)),
            final(self).same_timer(*old(self)),
            final(self).board == old(self).board,
            final(self).mines_left == old(self).mines_left,
            final(self).game_state == if hidden_count(old(self).grid()) == old(self).mines {
                GameState::Won
            } else {
                old(self).game_state
            },
    {
        let covered_cells: usize = self.count_hidden();
        if covered_cells == self.mines {
            self.game_state = GameState::Won;
        }
    }

    /// Reveals the covered cell `(x, y)` and, if it spreads, puts it on the
    /// work list.
    fn open_cell(&mut self, x: usize, y: usize, pending: &mut Vec<(usize, usize)>)
        requires
            rectangular(old(self).grid(), old(self).width as int, old(self).height as int),
            covered_at(old(self).grid(), x as int, y as int),
        ensures
            final(self).same_but_board(*old(self)),
            final(self).grid() == with_cell(
                old(self).grid(),
                x as int,
                y as int,
                in_state(old(self).grid()[x as int][y as int], CellState::Revealed),
            ),
            rectangular(final(self).grid(), final(self).width as int, final(self).height as int),
            cells_of(final(pending)@) == if spreads_at(old(self).grid(), x as int, y as int) {
                cells_of(old(pending)@).push((x as int, y as int))
            } else {
                cells_of(old(pending)@)
            },
    {
        let cell = self.board[x][y];
        let revealed = Cell {
            has_mine: cell.has_mine,
            state: CellState::Revealed,
            adjacent_mines: cell.adjacent_mines,
        };
        set_cell(&mut self.board, x, y, revealed);
        if !cell.has_mine && cell.adjacent_mines == 0 {
            pending.push((x, y));
            assert(cells_of(pending@) =~= cells_of(old(pending)@).push((x as int, y as int)));
        }
    }

    /// Reveals the covered cell `(x, y)` and every cell that the reveal
    /// reaches from it, working through a list of the opened cells whose
    /// neighbours are still to be visited.
    fn open_region(&mut self, x: usize, y: usize)
        requires
            rectangular(old(self).grid(), old(self).width as int, old(self).height as int),
            covered_at(old(self).grid(), x as int, y as int),
        ensures
            final(self).same_but_board(*old(self)),
            final(self).grid() == after_cascade(old(self).grid(), x as int, y as int),
    {
        let ghost g0 = self.grid();
        let ghost sx = x as int;
        let ghost sy = y as int;
        let mut pending: Vec<(usize, usize)> = Vec::new();
        proof {
            lemma_cascade_start(g0, sx, sy);
            assert(cells_of(pending@) =~= Seq::<(int, int)>::empty());
            lemma_open_neighbor(g0, g0, sx, sy, Seq::<(int, int)>::empty(), -1, -1, sx, sy);
        }
        self.open_cell(x, y, &mut pending);
        while pending.len() > 0
            invariant
                self.same_but_board(*old(self)),
                rectangular(self.grid(), self.width as int, self.height as int),
                rectangular(g0, self.width as int, self.height as int),
                sx == x as int,
                sy == y as int,
                cascade_stage(g0, self.grid(), sx, sy),
                opened(g0, self.grid(), sx, sy),
                pending_opened(g0, self.grid(), cells_of(pending@)),
                settled_except(g0, self.grid(), cells_of(pending@), -1, -1),
            decreases hidden_count(self.grid()), pending.len(),
        {
            let ghost waiting = cells_of(pending@);
            let (cx, cy) = pending.pop().unwrap();
            proof {
                assert(cells_of(pending@) =~= waiting.drop_last());
                assert(waiting.last() == (cx as int, cy as int));
                lemma_take_pending(g0, self.grid(), waiting);
            }
            let x_lo: usize = if cx > 0 {
                cx - 1
            } else {
                cx
            };
            let x_hi: usize = if cx + 1 < self.width {
                cx + 1
            } else {
                cx
            };
            let y_lo: usize = if cy > 0 {
                cy - 1
            } else {
                cy
            };
            let y_hi: usize = if cy + 1 < self.height {
                cy + 1
            } else {
                cy
            };
            let ghost hidden_start = hidden_count(self.grid());
            let ghost len_start = pending.len();
            let mut nx: usize = x_lo;
            while nx <= x_hi
                invariant
                    self.same_but_board(*old(self)),
                    rectangular(self.grid(), self.width as int, self.height as int),
                    rectangular(g0, self.width as int, self.height as int),
                    sx == x as int,
                    sy == y as int,
                    cx < self.width,
                    cy < self.height,
                    x_lo <= nx <= x_hi + 1,
                    x_lo == if cx > 0 { cx - 1 } else { 0 },
                    x_hi == if cx + 1 < self.width { cx + 1 } else { cx as int },
                    y_lo == if cy > 0 { cy - 1 } else { 0 },
                    y_hi == if cy + 1 < self.height { cy + 1 } else { cy as int },
                    cascade_stage(g0, self.grid(), sx, sy),
                    opened(g0, self.grid(), sx, sy),
                    opened(g0, self.grid(), cx as int, cy as int),
                    spreads_at(g0, cx as int, cy as int),
                    pending_opened(g0, self.grid(), cells_of(pending@)),
                    settled_except(g0, self.grid(), cells_of(pending@), cx as int, cy as int),
                    visited_around(self.grid(), cx as int, cy as int, nx as int, y_lo as int),
                    hidden_count(self.grid()) <= hidden_start,
                    hidden_count(self.grid()) == hidden_start ==> pending.len() == len_start,
                decreases x_hi + 1 - nx,
            {
                let mut ny: usize = y_lo;
                while ny <= y_hi
                    invariant
                        self.same_but_board(*old(self)),
                        rectangular(self.grid(), self.width as int, self.height as int),
                        rectangular(g0, self.width as int, self.height as int),
                        sx == x as int,
                        sy == y as int,
                        cx < self.width,
                        cy < self.height,
                        x_lo <= nx <= x_hi,
                        y_lo <= ny <= y_hi + 1,
                        x_lo == if cx > 0 { cx - 1 } else { 0 },
                        x_hi == if cx + 1 < self.width { cx + 1 } else { cx as int },
                        y_lo == if cy > 0 { cy - 1 } else { 0 },
                        y_hi == if cy + 1 < self.height { cy + 1 } else { cy as int },
                        cascade_stage(g0, self.grid(), sx, sy),
                        opened(g0, self.grid(), sx, sy),
                        opened(g0, self.grid(), cx as int, cy as int),
                        spreads_at(g0, cx as int, cy as int),
                        pending_opened(g0, self.grid(), cells_of(pending@)),
                        settled_except(g0, self.grid(), cells_of(pending@), cx as int, cy as int),
                        visited_around(self.grid(), cx as int, cy as int, nx as int, ny as int),
                        hidden_count(self.grid()) <= hidden_start,
                        hidden_count(self.grid()) == hidden_start ==> pending.len() == len_start,
                    decreases y_hi + 1 - ny,
                {
                    let ghost g = self.grid();
                    assert(in_bounds(g, nx as int, ny as int));
                    assert(in_bounds(g0, nx as int, ny as int));
                    if self.board[nx][ny].state == CellState::Covered {
                        proof {
                            assert(g[nx as int][ny as int].state == g0[nx as int][ny as int].state);
                            assert(g[cx as int][cy as int].state != g0[cx as int][cy as int].state);
                            lemma_cascade_step(
                                g0,
                                sx,
                                sy,
                                cx as int,
                                cy as int,
                                nx as int,
                                ny as int,
                            );
                            lemma_open_neighbor(
                                g0,
                                g,
                                sx,
                                sy,
                                cells_of(pending@),
                                cx as int,
                                cy as int,
                                nx as int,
                                ny as int,
                            );
                            assert(visited_around(g, cx as int, cy as int, nx as int, ny as int));
                        }
                        self.open_cell(nx, ny, &mut pending);
                    }
                    proof {
                        let h = self.grid();
                        assert(visited_around(h, cx as int, cy as int, nx as int, ny as int));
                        assert(h[nx as int][ny as int].state != CellState::Covered);
                        assert(visited_around(h, cx as int, cy as int, nx as int, ny + 1));
                    }
                    ny += 1;
                }
                proof {
                    let h = self.grid();
                    assert(visited_around(h, cx as int, cy as int, nx + 1, y_lo as int)) by {
                        assert forall|a: int, b: int|
                            adjacent(cx as int, cy as int, a, b) && in_bounds(
                                h,
                                a,
                                b,
                            ) && (a < nx + 1 || (a == nx + 1 && b < y_lo)) implies (
                        #[trigger] h[a][b]).state != CellState::Covered by {
                            assert(h[a].len() == self.height);
                        }
                    }
                }
                nx += 1;
            }
            proof {
                let h = self.grid();
                assert(visited_around(h, cx as int, cy as int, cx + 2, 0)) by {
                    assert forall|a: int, b: int|
                        adjacent(cx as int, cy as int, a, b) && in_bounds(h, a, b)
                            && (a < cx + 2 || (a == cx + 2 && b < 0)) implies (
                    #[trigger] h[a][b]).state != CellState::Covered by {
                        assert(h[a].len() == self.height);
                    }
                }
                lemma_settle(g0, h, cells_of(pending@), cx as int, cy as int);
            }
        }
        proof {
            assert(cells_of(pending@) =~= Seq::<(int, int)>::empty());
            lemma_cascade_done(g0, self.grid(), sx, sy);
        }
    }

    /// Reveals the cell `(x, y)`. Nothing happens unless the cell is
    /// covered. A mine there is opened and no other cell changes; while play
    /// is on, that loses the round. Otherwise the cell is opened and, where
    /// no mine lies around it, the cells around it in turn; while play is on,
    /// the round is won if that leaves as many cells hidden as there are
    /// mines. A round that is over stays as it ended.
    pub fn reveal_cell(&mut self, x: usize, y: usize)
        requires
            old(self).wf(),
            x < old(self).width,
            y < old(self).height,
        ensures
            final(self).wf(),
            final(self).revealed_from(*old(self), x as int, y as int),
            final(self).same_timer(*old(self)),
            old(self).outcome_fits() && old(self).game_state == GameState::Playing
                ==> final(self).outcome_fits(),
    {
        assert(in_bounds(self.grid(), x as int, y as int));
        proof {
            law_reveal_keeps_layout(self.grid(), x as int, y as int);
            if self.outcome_fits() && self.game_state == GameState::Playing {
                law_reveal_keeps_outcome(self.grid(), x as int, y as int, self.mines as int);
            }
        }
        let cell = self.board[x][y];
        if cell.state != CellState::Covered {
            return;
        }
        if cell.has_mine {
            let revealed = Cell {
                has_mine: cell.has_mine,
                state: CellState::Revealed,
                adjacent_mines: cell.adjacent_mines,
            };
            set_cell(&mut self.board, x, y, revealed);
            if self.game_state == GameState::Playing {
                self.game_state = GameState::Lost;
            }
            return;
        }
        self.open_region(x, y);
        if self.game_state == GameState::Playing {
            self.check_win_condition();
        }
    }

    /// Starts the timer unless it runs.
    fn start_timer(&mut self)
        ensures
            final(self).same_but_timer(*old(self)),
            final(self).timer_started_from(*old(self)),
    {
        if self.start_time.is_none() {
            self.start_time = Some(Instant::now());
        }
    }

    /// The player's primary input on the cell `(x, y)`: starts the timer if
    /// this is the round's first input, then reveals the cell.
    pub fn handle_left_click(&mut self, x: usize, y: usize)
        requires
            old(self).wf(),
            x < old(self).width,
            y < old(self).height,
        ensures
            final(self).wf(),
            final(self).revealed_from(*old(self), x as int, y as int),
            final(self).timer_started_from(*old(self)),
            old(self).outcome_fits() && old(self).game_state == GameState::Playing
                ==> final(self).outcome_fits(),
    {
        self.start_timer();
        assert(in_bounds(self.grid(), x as int, y as int));
        if self.board[x][y].state == CellState::Covered {
            self.reveal_cell(x, y);
        }
    }

    /// Plants a flag on the covered cell `(x, y)`, which takes one off the
    /// mine counter, or takes the flag off the flagged cell, which puts one
    /// back. A revealed cell is left as it is.
    pub fn toggle_flag(&mut self, x: usize, y: usize)
        requires
            old(self).wf(),
            x < old(self).width,
            y < old(self).height,
        ensures
            final(self).wf(),
            final(self).flag_toggled_from(*old(self), x as int, y as int),
            final(self).same_timer(*old(self)),
            old(self).outcome_fits() ==> final(self).outcome_fits(),
    {
        let ghost g = self.grid();
        assert(in_bounds(g, x as int, y as int));
        proof {
            law_toggle_keeps_layout(g, x as int, y as int);
            if self.outcome_fits() {
                law_toggle_keeps_outcome(
                    g,
                    x as int,
                    y as int,
                    self.game_state,
                    self.mines as int,
                );
            }
            lemma_count_cells_bound(g, self.height as int, |c: Cell| is_mine(c));
            lemma_count_cells_bound(g, self.height as int, |c: Cell| is_flagged(c));
            lemma_count_cells_bound(
                grid_after_toggle(g, x as int, y as int),
                self.height as int,
                |c: Cell| is_flagged(c),
            );
        }
        let cell = self.board[x][y];
        match cell.state {
            CellState::Covered => {
                let flagged = Cell {
                    has_mine: cell.has_mine,
                    state: CellState::Flagged,
                    adjacent_mines: cell.adjacent_mines,
                };
                set_cell(&mut self.board, x, y, flagged);
                self.mines_left -= 1;
            },
            CellState::Flagged => {
                let covered = Cell {
                    has_mine: cell.has_mine,
                    state: CellState::Covered,
                    adjacent_mines: cell.adjacent_mines,
                };
                set_cell(&mut self.board, x, y, covered);
                self.mines_left += 1;
            },
            CellState::Revealed => {
                assert(g =~~= grid_after_toggle(g, x as int, y as int));
            },
        }
    }

    /// The player's secondary input on the cell `(x, y)`: starts the timer
    /// if this is the round's first input, then toggles the cell's flag.
    pub fn handle_right_click(&mut self, x: usize, y: usize)
        requires
            old(self).wf(),
            x < old(self).width,
            y < old(self).height,
        ensures
            final(self).wf(),
            final(self).flag_toggled_from(*old(self), x as int, y as int),
            final(self).timer_started_from(*old(self)),
            old(self).outcome_fits() ==> final(self).outcome_fits(),
    {
        self.start_timer();
        self.toggle_flag(x, y);
    }

    /// Takes `seconds` as the time played so far, if the timer has been
    /// started and play is on; once the round is over the time stands.
    pub fn record_elapsed(&mut self, seconds: u64)
        ensures
            final(self).same_but_timer(*old(self)),
            final(self).start_time == old(self).start_time,
            final(self).elapsed_time == if old(self).start_time is Some && old(self).game_state
                == GameState::Playing {
                seconds
            } else {
                old(self).elapsed_time
            },
    {
        if self.start_time.is_some() && self.game_state == GameState::Playing {
            self.elapsed_time = seconds;
        }
    }

    /// Brings the time played up to date from the clock. The time changes
    /// only while the timer has been started and play is on.
    pub fn update_timer(&mut self)
        ensures
            final(self).same_but_timer(*old(self)),
            final(self).start_time == old(self).start_time,
            !(old(self).start_time is Some && old(self).game_state == GameState::Playing)
                ==> final(self).elapsed_time == old(self).elapsed_time,
    {
        match self.start_time {
            Some(start_time) => {
                if self.game_state == GameState::Playing {
                    let seconds: u64 = start_time.elapsed().as_secs();
                    self.record_elapsed(seconds);
                }
            },
            None => {},
        }
    }
}

/// A board on which every cell is covered carries no flag.
proof fn lemma_no_flags(g: Grid, height: int)
    requires
        rectangular(g, g.len() as int, height),
        all_covered(g),
    ensures
        flag_count(g) == 0,
{
    assert forall|x: int, y: int| in_bounds(g, x, y) implies !(|c: Cell| is_flagged(c))(
        #[trigger] g[x][y],
    ) by {}
    lemma_count_cells_uniform(g, height, |c: Cell| is_flagged(c));
}

} // verus!
