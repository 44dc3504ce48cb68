//! The rules of play as functions on boards, and the laws that follow from
//! them. The session's operations are specified by these functions.

use crate::cascade::{
    adjacent, after_cascade, cascade_path, cascade_reaches, covered_at, lemma_cascade_avoids_mines,
    lemma_cascade_start, lemma_cascade_step, spreads_at,
};
use crate::game::{Cell, CellState, GameState};
use crate::grid::{
    counts_correct, flag_count, hidden_count, in_bounds, in_state, is_flagged, is_hidden,
    lemma_count_cells_agree, lemma_count_cells_update, lemma_hidden_equals_mines,
    lemma_same_layout_kept, lemma_same_shape, mine_count, rectangular, same_layout, with_cell,
    Grid,
};
use vstd::prelude::*;

verus! {

/// A cell after the player has toggled its flag: a covered cell gets one, a
/// flagged cell loses it, a revealed cell stays as it is.
pub open spec fn toggled(c: Cell) -> Cell {
    match c.state {
        CellState::Covered => in_state(c, CellState::Flagged),
        CellState::Flagged => in_state(c, CellState::Covered),
        CellState::Revealed => c,
    }
}

/// The board after the flag at `(x, y)` has been toggled.
pub open spec fn grid_after_toggle(g: Grid, x: int, y: int) -> Grid {
    with_cell(g, x, y, toggled(g[x][y]))
}

/// The mine counter after the flag at `(x, y)` has been toggled: one less
/// for a new flag, one more for a flag taken away.
pub open spec fn mines_left_after_toggle(g: Grid, x: int, y: int, mines_left: int) -> int {
    match g[x][y].state {
        CellState::Covered => mines_left - 1,
        CellState::Flagged => mines_left + 1,
        CellState::Revealed => mines_left,
    }
}

/// The board after a reveal at `(x, y)`: unchanged unless the cell is
/// covered; with only that cell revealed where it holds a mine; else with
/// every cell revealed that the reveal reaches from there.
pub open spec fn grid_after_reveal(g: Grid, x: int, y: int) -> Grid {
    if g[x][y].state != CellState::Covered {
        g
    } else if g[x][y].has_mine {
        with_cell(g, x, y, in_state(g[x][y], CellState::Revealed))
    } else {
        after_cascade(g, x, y)
    }
}

/// How the round stands after a reveal at `(x, y)` on a board with `mines`
/// mines. A round that is over stays as it ended: only a new round leaves a
/// win or a loss. While play is on, the round stands as before unless the
/// cell is covered; it is lost where the cell holds a mine; else it is won
/// if as many cells are left hidden as there are mines.
pub open spec fn state_after_reveal(g: Grid, x: int, y: int, state: GameState, mines: int) -> GameState {
    if state != GameState::Playing || g[x][y].state != CellState::Covered {
        state
    } else if g[x][y].has_mine {
        GameState::Lost
    } else if hidden_count(after_cascade(g, x, y)) == mines {
        GameState::Won
    } else {
        state
    }
}

/// The level after a round that ended in `state` gives way to a new one:
/// one up after a win, back to 1 after a loss, unchanged otherwise.
pub open spec fn next_level(state: GameState, level: int) -> int {
    match state {
        GameState::Won => level + 1,
        GameState::Lost => 1,
        GameState::Playing => level,
    }
}

/// The number of mines of the round that follows one that ended in `state`:
/// twice as many after a win, the session's first number after a loss, the
/// same otherwise; but never more than leave nine cells of the board free.
pub open spec fn next_mines(state: GameState, mines: int, base_mines: int, area: int) -> int {
    let wanted = match state {
        GameState::Won => 2 * mines,
        GameState::Lost => base_mines,
        GameState::Playing => mines,
    };
    if wanted > area - 9 {
        area - 9
    } else {
        wanted
    }
}

/// No cell that holds a mine has been revealed.
pub open spec fn no_mine_opened(g: Grid) -> bool {
    forall|x: int, y: int|
        in_bounds(g, x, y) && (#[trigger] g[x][y]).has_mine ==> g[x][y].state
            != CellState::Revealed
}

/// The outcome fits the board: while play is on no mine has been opened,
/// a round is won with no mine opened and only the mines hidden, and a round
/// is lost with a mine opened. A reveal made while play is on keeps this; one
/// made after the round is over opens cells and leaves the outcome as it
/// is, so that the board may no longer fit it.
pub open spec fn outcome_fits(g: Grid, state: GameState, mines: int) -> bool {
    match state {
        GameState::Playing => no_mine_opened(g),
        GameState::Won => no_mine_opened(g) && hidden_count(g) == mines,
        GameState::Lost => !no_mine_opened(g),
    }
}

/// A reveal changes nothing but the states of cells: the mines and the
/// numbers stay, and so do the flags.
pub proof fn law_reveal_keeps_layout(g: Grid, x: int, y: int)
    requires
        in_bounds(g, x, y),
    ensures
        same_layout(g, grid_after_reveal(g, x, y)),
        mine_count(grid_after_reveal(g, x, y)) == mine_count(g),
        flag_count(grid_after_reveal(g, x, y)) == flag_count(g),
        counts_correct(g) ==> counts_correct(grid_after_reveal(g, x, y)),
        forall|width: int, height: int| #[trigger]
            rectangular(g, width, height) ==> rectangular(
                grid_after_reveal(g, x, y),
                width,
                height,
            ),
        forall|a: int, b: int|
            in_bounds(g, a, b) && (#[trigger] g[a][b]).state != CellState::Covered
                ==> grid_after_reveal(g, x, y)[a][b] == g[a][b],
{
    let h = grid_after_reveal(g, x, y);
    assert(same_layout(g, h));
    lemma_same_layout_kept(g, h);
    lemma_same_shape(g, h);
    assert forall|a: int, b: int| in_bounds(g, a, b) && (#[trigger] g[a][b]).state
        != CellState::Covered implies h[a][b] == g[a][b] by {
        if g[x][y].state == CellState::Covered && !g[x][y].has_mine {
            if cascade_reaches(g, x, y, a, b) {
                let path = choose|path: Seq<(int, int)>|
                    cascade_path(g, path) && path.first() == (x, y)
                        && #[trigger] path.last() == (a, b);
                assert(covered_at(g, path[path.len() - 1].0, path[path.len() - 1].1));
            }
        }
    }
    assert forall|a: int, b: int| in_bounds(g, a, b) implies (|c: Cell| is_flagged(c))(
        #[trigger] g[a][b],
    ) == (|c: Cell| is_flagged(c))(h[a][b]) by {
        if g[a][b].state != CellState::Covered {
            assert(h[a][b] == g[a][b]);
        } else {
            assert(h[a][b].state == CellState::Covered || h[a][b].state == CellState::Revealed);
        }
    }
    lemma_count_cells_agree(g, h, |c: Cell| is_flagged(c));
}

/// A reveal at a covered mine-free cell opens that cell; from every opened
/// cell without a mine around it, it goes on to the covered cells around
/// that one, so that the whole connected region of such cells is opened
/// together with the numbered cells on its border; and it opens no mine.
pub proof fn law_reveal_opens_region(g: Grid, x: int, y: int)
    requires
        counts_correct(g),
        covered_at(g, x, y),
        !g[x][y].has_mine,
    ensures
        grid_after_reveal(g, x, y)[x][y].state == CellState::Revealed,
        forall|a: int, b: int, c: int, d: int|
            #![trigger cascade_reaches(g, x, y, a, b), adjacent(a, b, c, d)]
            cascade_reaches(g, x, y, a, b) && spreads_at(g, a, b) && adjacent(a, b, c, d)
                && covered_at(g, c, d) ==> cascade_reaches(g, x, y, c, d) && grid_after_reveal(
                g,
                x,
                y,
            )[c][d].state == CellState::Revealed,
        forall|a: int, b: int|
            in_bounds(g, a, b) && (#[trigger] g[a][b]).has_mine ==> grid_after_reveal(
                g,
                x,
                y,
            )[a][b] == g[a][b],
{
    let h = grid_after_reveal(g, x, y);
    lemma_cascade_start(g, x, y);
    assert forall|a: int, b: int, c: int, d: int|
        #![trigger cascade_reaches(g, x, y, a, b), adjacent(a, b, c, d)]
        cascade_reaches(g, x, y, a, b) && spreads_at(g, a, b) && adjacent(a, b, c, d)
            && covered_at(g, c, d) implies cascade_reaches(g, x, y, c, d) && h[c][d].state
        == CellState::Revealed by {
        lemma_cascade_step(g, x, y, a, b, c, d);
    }
    assert forall|a: int, b: int| in_bounds(g, a, b) && (#[trigger] g[a][b]).has_mine implies h[a][b]
        == g[a][b] by {
        if cascade_reaches(g, x, y, a, b) {
            lemma_cascade_avoids_mines(g, x, y, a, b);
        }
    }
}

/// While play is on, a reveal at a covered mine loses the round; and
/// whether play is on or not, it changes no other cell.
pub proof fn law_reveal_mine_loses(g: Grid, x: int, y: int, mines: int)
    requires
        covered_at(g, x, y),
        g[x][y].has_mine,
    ensures
        state_after_reveal(g, x, y, GameState::Playing, mines) == GameState::Lost,
        grid_after_reveal(g, x, y)[x][y].state == CellState::Revealed,
        forall|a: int, b: int|
            in_bounds(g, a, b) && !(a == x && b == y) ==> #[trigger] grid_after_reveal(
                g,
                x,
                y,
            )[a][b] == g[a][b],
{
}

/// No reveal leaves a win or a loss: a round that is over stands as it ended
/// until a new round begins.
pub proof fn law_finished_round_stands(g: Grid, x: int, y: int, state: GameState, mines: int)
    requires
        state != GameState::Playing,
    ensures
        state_after_reveal(g, x, y, state, mines) == state,
{
}

/// While play is on, a reveal wins the round exactly when it opens a
/// mine-free cell and leaves as many cells hidden as there are mines, and
/// loses it exactly when it opens a mine; so no reveal does both.
pub proof fn law_win_declared(g: Grid, x: int, y: int, mines: int)
    requires
        in_bounds(g, x, y),
    ensures
        state_after_reveal(g, x, y, GameState::Playing, mines) == GameState::Won <==> covered_at(
            g,
            x,
            y,
        ) && !g[x][y].has_mine && hidden_count(grid_after_reveal(g, x, y)) == mines,
        state_after_reveal(g, x, y, GameState::Playing, mines) == GameState::Lost <==> covered_at(
            g,
            x,
            y,
        ) && g[x][y].has_mine,
{
}

/// On a board with `mines` mines of which none has been opened, as many
/// cells are hidden as there are mines exactly when every mine-free cell has
/// been revealed.
pub proof fn law_win_means_cleared(g: Grid, mines: int)
    requires
        mine_count(g) == mines,
        forall|x: int, y: int|
            in_bounds(g, x, y) && (#[trigger] g[x][y]).has_mine ==> g[x][y].state
                != CellState::Revealed,
    ensures
        hidden_count(g) >= mines,
        hidden_count(g) == mines <==> forall|x: int, y: int|
            in_bounds(g, x, y) && !(#[trigger] g[x][y]).has_mine ==> g[x][y].state
                == CellState::Revealed,
{
    lemma_hidden_equals_mines(g);
}

/// A flag on a covered cell takes one off the counter, taking the flag away
/// again restores the board and the counter, and a revealed cell takes no
/// flag.
pub proof fn law_flag_toggle(g: Grid, x: int, y: int, mines_left: int)
    requires
        in_bounds(g, x, y),
    ensures
        g[x][y].state == CellState::Covered ==> {
            &&& grid_after_toggle(g, x, y)[x][y].state == CellState::Flagged
            &&& mines_left_after_toggle(g, x, y, mines_left) == mines_left - 1
        },
        grid_after_toggle(grid_after_toggle(g, x, y), x, y) == g,
        mines_left_after_toggle(
            grid_after_toggle(g, x, y),
            x,
            y,
            mines_left_after_toggle(g, x, y, mines_left),
        ) == mines_left,
        g[x][y].state == CellState::Revealed ==> {
            &&& grid_after_toggle(g, x, y) == g
            &&& mines_left_after_toggle(g, x, y, mines_left) == mines_left
        },
{
    let once = grid_after_toggle(g, x, y);
    let twice = grid_after_toggle(once, x, y);
    assert(once[x][y] == toggled(g[x][y]));
    assert(twice[x] =~= g[x]);
    assert(twice =~= g);
    if g[x][y].state == CellState::Revealed {
        assert(once[x] =~= g[x]);
        assert(once =~= g);
    }
}

/// Toggling a flag keeps the mines and the numbers, and moves the number of
/// flags as it moves the counter.
pub proof fn law_toggle_keeps_layout(g: Grid, x: int, y: int)
    requires
        in_bounds(g, x, y),
    ensures
        same_layout(g, grid_after_toggle(g, x, y)),
        mine_count(grid_after_toggle(g, x, y)) == mine_count(g),
        counts_correct(g) ==> counts_correct(grid_after_toggle(g, x, y)),
        forall|width: int, height: int| #[trigger]
            rectangular(g, width, height) ==> rectangular(
                grid_after_toggle(g, x, y),
                width,
                height,
            ),
        flag_count(g) - flag_count(grid_after_toggle(g, x, y)) == mines_left_after_toggle(
            g,
            x,
            y,
            0,
        ),
{
    let h = grid_after_toggle(g, x, y);
    assert(same_layout(g, h));
    lemma_same_layout_kept(g, h);
    lemma_same_shape(g, h);
    lemma_count_cells_update(g, x, y, toggled(g[x][y]), |c: Cell| is_flagged(c));
}

/// After a win the next round is one level up with twice the mines, after a
/// loss it is at level 1 with the session's first number of mines, and in
/// both cases nine cells of the board at least stay free.
pub proof fn law_progression(mines: int, base_mines: int, level: int, area: int)
    requires
        0 <= mines,
        0 <= base_mines,
        9 <= area,
    ensures
        next_level(GameState::Won, level) == level + 1,
        next_mines(GameState::Won, mines, base_mines, area) == if 2 * mines <= area - 9 {
            2 * mines
        } else {
            area - 9
        },
        next_level(GameState::Lost, level) == 1,
        next_mines(GameState::Lost, mines, base_mines, area) == if base_mines <= area - 9 {
            base_mines
        } else {
            area - 9
        },
        next_level(GameState::Playing, level) == level,
        forall|state: GameState|
            0 <= #[trigger] next_mines(state, mines, base_mines, area) <= area - 9,
{
}

/// While play is on, a reveal leaves the outcome fitting the board: it
/// wins only with every mine-free cell revealed and no mine opened, and it
/// loses only by opening a mine.
pub proof fn law_reveal_keeps_outcome(g: Grid, x: int, y: int, mines: int)
    requires
        in_bounds(g, x, y),
        counts_correct(g),
        mine_count(g) == mines,
        outcome_fits(g, GameState::Playing, mines),
    ensures
        outcome_fits(
            grid_after_reveal(g, x, y),
            state_after_reveal(g, x, y, GameState::Playing, mines),
            mines,
        ),
        state_after_reveal(g, x, y, GameState::Playing, mines) == GameState::Won ==> forall|
            a: int,
            b: int,
        |
            in_bounds(g, a, b) && !(#[trigger] g[a][b]).has_mine ==> grid_after_reveal(
                g,
                x,
                y,
            )[a][b].state == CellState::Revealed,
{
    let h = grid_after_reveal(g, x, y);
    law_reveal_keeps_layout(g, x, y);
    if g[x][y].state == CellState::Covered {
        if g[x][y].has_mine {
            assert(in_bounds(h, x, y) && h[x][y].has_mine && h[x][y].state
                == CellState::Revealed);
        } else {
            law_reveal_opens_region(g, x, y);
            assert forall|a: int, b: int| in_bounds(h, a, b) && (#[trigger] h[a][b]).has_mine implies h[a][b].state
                != CellState::Revealed by {
                assert(in_bounds(g, a, b));
                assert(g[a][b].has_mine);
            }
            if hidden_count(h) == mines {
                law_win_means_cleared(h, mines);
                assert forall|a: int, b: int| in_bounds(g, a, b) && !(#[trigger] g[a][b]).has_mine implies h[a][b].state
                    == CellState::Revealed by {
                    assert(in_bounds(h, a, b));
                    assert(!h[a][b].has_mine);
                }
            }
        }
    }
}

/// Toggling a flag leaves the outcome fitting the board: it opens no cell
/// and hides none.
pub proof fn law_toggle_keeps_outcome(g: Grid, x: int, y: int, state: GameState, mines: int)
    requires
        in_bounds(g, x, y),
        outcome_fits(g, state, mines),
    ensures
        hidden_count(grid_after_toggle(g, x, y)) == hidden_count(g),
        no_mine_opened(grid_after_toggle(g, x, y)) == no_mine_opened(g),
        outcome_fits(grid_after_toggle(g, x, y), state, mines),
{
    let h = grid_after_toggle(g, x, y);
    lemma_count_cells_update(g, x, y, toggled(g[x][y]), |c: Cell| is_hidden(c));
    assert forall|a: int, b: int| in_bounds(g, a, b) implies in_bounds(h, a, b) && (
    #[trigger] h[a][b]).has_mine == g[a][b].has_mine && (h[a][b].state == CellState::Revealed)
        == (g[a][b].state == CellState::Revealed) by {}
    if no_mine_opened(g) {
        assert forall|a: int, b: int| in_bounds(h, a, b) && (#[trigger] h[a][b]).has_mine implies h[a][b].state
            != CellState::Revealed by {
            assert(in_bounds(g, a, b));
            assert(g[a][b].has_mine);
        }
    } else {
        let (a, b) = choose|a: int, b: int|
            in_bounds(g, a, b) && (#[trigger] g[a][b]).has_mine && g[a][b].state
                == CellState::Revealed;
        assert(in_bounds(h, a, b) && h[a][b].has_mine && h[a][b].state == CellState::Revealed);
    }
}

} // verus!
