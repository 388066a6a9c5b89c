use crate::cell::Cell;
use crate::flood::{
    fresh, lemma_spread_done, lemma_spread_pop, lemma_spread_settled, lemma_spread_step,
    on_frontier, spreading,
};
use crate::laws::{
    lemma_counts_settled, lemma_reveal_keeps_well_formed, lemma_toggle_keeps_well_formed,
};
use crate::model::{adjacent, listed, valid_layout, BoardView, GameState};
use crate::random::random_below;
use crate::text::{grid_text, push_char, row_text};
use vstd::prelude::*;

verus! {

/// Rows of the standard board.
pub const ROWS: usize = 10;

/// Columns of the standard board.
pub const COLS: usize = 10;

/// Mines of the standard board.
pub const MINES: usize = 15;

/// A Minesweeper board: the grid, the number of mines it holds, and whether
/// a mine was hit.
#[derive(Clone, Debug, PartialEq, Eq)]
pub struct GameBoard {
    grid: Vec<Vec<Cell>>,
    mine_count: usize,
    game_over: bool,
}

impl View for GameBoard {
    type V = BoardView;

    closed spec fn view(&self) -> BoardView {
        BoardView {
            cells: Seq::new(self.grid@.len(), |i: int| self.grid@[i]@),
            mine_count: self.mine_count as nat,
            game_over: self.game_over,
        }
    }
}

/// The coordinate one step from `x` in direction `d - 1`, where `d` is 0, 1
/// or 2, if it lies below `limit`.
fn shift(x: usize, d: usize, limit: usize) -> (y: Option<usize>)
    requires
        d <= 2,
        x < limit,
    ensures
        y == (if 0 <= x + d - 1 < limit {
            Some((x + d - 1) as usize)
        } else {
            None
        }),
{
    if d == 0 {
        if x > 0 {
            Some(x - 1)
        } else {
            None
        }
    } else if d == 1 {
        Some(x)
    } else if x + 1 < limit {
        Some(x + 1)
    } else {
        None
    }
}

/// Whether `count` is less than the number of cells of a grid of `rows` by
/// `cols`.
fn fewer_than_cells(count: usize, rows: usize, cols: usize) -> (fewer: bool)
    ensures
        fewer == (count < rows * cols),
{
    match rows.checked_mul(cols) {
        Some(cells) => count < cells,
        None => true,
    }
}

/// A grid of `rows` by `cols` blank cells.
fn blank_grid(rows: usize, cols: usize) -> (grid: Vec<Vec<Cell>>)
    ensures
        grid@.len() == rows,
        forall|i: int| 0 <= i < rows ==> (#[trigger] grid@[i])@.len() == cols,
        forall|i: int, j: int| 0 <= i < rows && 0 <= j < cols ==> grid@[i]@[j] == Cell::blank(),
{
    let mut grid: Vec<Vec<Cell>> = Vec::new();
    let mut i: usize = 0;
    while i < rows
        invariant
            i <= rows,
            grid@.len() == i,
            forall|k: int| 0 <= k < i ==> (#[trigger] grid@[k])@.len() == cols,
            forall|k: int, j: int| 0 <= k < i && 0 <= j < cols ==> grid@[k]@[j] == Cell::blank(),
        decreases rows - i,
    {
        let mut row: Vec<Cell> = Vec::new();
        let mut j: usize = 0;
        while j < cols
            invariant
                j <= cols,
                row@.len() == j,
                forall|k: int| 0 <= k < j ==> row@[k] == Cell::blank(),
            decreases cols - j,
        {
            row.push(Cell::new());
            j += 1;
        }
        grid.push(row);
        i += 1;
    }
    grid
}

impl GameBoard {
    /// The number of rows of the grid.
    pub fn rows(&self) -> (n: usize)
        ensures
            n == self@.rows(),
    {
        self.grid.len()
    }

    /// The number of columns of the grid.
    pub fn cols(&self) -> (n: usize)
        ensures
            n == self@.cols(),
    {
        if self.grid.len() > 0 {
            self.grid[0].len()
        } else {
            0
        }
    }

    /// The number of mines the board holds.
    pub fn mine_count(&self) -> (n: usize)
        ensures
            n == self@.mine_count,
    {
        self.mine_count
    }

    /// Whether a mine was hit.
    pub fn game_over(&self) -> (lost: bool)
        ensures
            lost == self@.game_over,
    {
        self.game_over
    }

    /// Row `i` of the grid is row `i` of the model, and as long as any other.
    proof fn lemma_row(&self, i: int)
        requires
            self@.rectangular(),
            0 <= i < self@.rows(),
        ensures
            self.grid@.len() == self@.rows(),
            self.grid@[i]@ == self@.cells[i],
            self.grid@[i]@.len() == self@.cols(),
    {
        assert(self@.cells[i].len() == self@.cols());
    }

    /// The cell at `(row, col)`, or `None` off the grid.
    pub fn cell(&self, row: usize, col: usize) -> (cell: Option<Cell>)
        requires
            self@.rectangular(),
        ensures
            cell == (if self@.in_bounds(row as int, col as int) {
                Some(self@.at(row as int, col as int))
            } else {
                None
            }),
    {
        if row < self.grid.len() {
            proof {
                self.lemma_row(row as int);
            }
            if col < self.grid[row].len() {
                Some(self.grid[row][col])
            } else {
                None
            }
        } else {
            None
        }
    }

    /// Lays a mine at `(row, col)` if that is a position of the grid without
    /// one, and says whether it did.
    fn place_mine(&mut self, row: usize, col: usize) -> (placed: bool)
        requires
            old(self)@.rectangular(),
        ensures
            placed == (old(self)@.in_bounds(row as int, col as int) && !old(self)@.at(
                row as int,
                col as int,
            ).is_mine),
            final(self)@ == (if placed {
                old(self)@.with_mine(row as int, col as int)
            } else {
                old(self)@
            }),
    {
        if row >= self.grid.len() {
            return false;
        }
        proof {
            self.lemma_row(row as int);
        }
        if col < self.grid[row].len() && !self.grid[row][col].is_mine {
            self.grid[row][col].is_mine = true;
            assert(self@.cells =~~= old(self)@.with_mine(row as int, col as int).cells);
            true
        } else {
            false
        }
    }

    /// 1 if the neighbour of `(row, col)` in direction `(dr - 1, dc - 1)`
    /// lies on the grid and holds a mine, else 0.
    fn mine_weight_near(&self, row: usize, col: usize, dr: usize, dc: usize) -> (w: u8)
        requires
            self@.rectangular(),
            self@.in_bounds(row as int, col as int),
            dr <= 2,
            dc <= 2,
        ensures
            w == self@.mine_weight(row + dr - 1, col + dc - 1),
    {
        proof {
            self.lemma_row(row as int);
        }
        let rows = self.grid.len();
        let cols = self.grid[row].len();
        match (shift(row, dr, rows), shift(col, dc, cols)) {
            (Some(r), Some(c)) => {
                proof {
                    self.lemma_row(r as int);
                }
                if self.grid[r][c].is_mine {
                    1
                } else {
                    0
                }
            },
            _ => 0,
        }
    }

    /// The number of mines around `(row, col)`.
    fn count_neighbor_mines(&self, row: usize, col: usize) -> (count: u8)
        requires
            self@.rectangular(),
            self@.in_bounds(row as int, col as int),
        ensures
            count == self@.neighbor_mines(row as int, col as int),
    {
        let above = self.mine_weight_near(row, col, 0, 0) + self.mine_weight_near(row, col, 0, 1)
            + self.mine_weight_near(row, col, 0, 2);
        let beside = self.mine_weight_near(row, col, 1, 0) + self.mine_weight_near(row, col, 1, 2);
        let below = self.mine_weight_near(row, col, 2, 0) + self.mine_weight_near(row, col, 2, 1)
            + self.mine_weight_near(row, col, 2, 2);
        above + beside + below
    }

    /// Writes into every cell without a mine the number of mines around it.
    /// Mines and everything else stay as they are; so does a board whose
    /// counts are right already.
    pub fn calculate_adjacent_mines(&mut self)
        requires
            old(self)@.rectangular(),
        ensures
            final(self)@ == old(self)@.with_counts(),
            forall|r: int, c: int|
                final(self)@.in_bounds(r, c) && !(#[trigger] final(self)@.at(r, c)).is_mine
                    ==> final(self)@.at(r, c).adjacent_mines == final(self)@.neighbor_mines(r, c),
            old(self)@.counts_correct() ==> final(self)@ == old(self)@,
    {
        proof {
            self@.lemma_with_counts();
            if self@.counts_correct() {
                lemma_counts_settled(self@);
            }
        }
        let rows = self.grid.len();
        let mut row: usize = 0;
        while row < rows
            invariant
                row <= rows,
                rows == self@.rows(),
                self@.rows() == old(self)@.rows(),
                self@.cols() == old(self)@.cols(),
                self@.rectangular(),
                old(self)@.rectangular(),
                self@.mine_count == old(self)@.mine_count,
                self@.game_over == old(self)@.game_over,
                forall|i: int, j: int|
                    self@.in_bounds(i, j) ==> #[trigger] self@.at(i, j) == (if i < row {
                        old(self)@.with_counts().at(i, j)
                    } else {
                        old(self)@.at(i, j)
                    }),
            decreases rows - row,
        {
            proof {
                self.lemma_row(row as int);
            }
            let cols = self.grid[row].len();
            let mut col: usize = 0;
            while col < cols
                invariant
                    row < rows,
                    col <= cols,
                    rows == self@.rows(),
                    cols == self@.cols(),
                    self@.rows() == old(self)@.rows(),
                    self@.cols() == old(self)@.cols(),
                    self@.rectangular(),
                    old(self)@.rectangular(),
                    self@.mine_count == old(self)@.mine_count,
                    self@.game_over == old(self)@.game_over,
                    forall|i: int, j: int|
                        self@.in_bounds(i, j) ==> #[trigger] self@.at(i, j) == (if i < row || (i
                            == row && j < col) {
                            old(self)@.with_counts().at(i, j)
                        } else {
                            old(self)@.at(i, j)
                        }),
                decreases cols - col,
            {
                let ghost before = self@;
                proof {
                    self.lemma_row(row as int);
                }
                if !self.grid[row][col].is_mine {
                    let count = self.count_neighbor_mines(row, col);
                    proof {
                        old(self)@.lemma_same_mines_same_counts(before, row as int, col as int);
                    }
                    self.grid[row][col].adjacent_mines = count;
                }
                proof {
                    assert(self@.rows() == before.rows());
                    assert(self@.cols() == before.cols());
                    assert forall|i: int| 0 <= i < self@.cells.len() implies (
                    #[trigger] self@.cells[i]).len() == self@.cols() by {
                        assert(before.cells[i].len() == before.cols());
                    }
                    assert forall|i: int, j: int| self@.in_bounds(i, j) implies #[trigger] self@.at(
                        i,
                        j,
                    ) == (if i < row || (i == row && j < col + 1) {
                        old(self)@.with_counts().at(i, j)
                    } else {
                        old(self)@.at(i, j)
                    }) by {
                        assert(before.in_bounds(i, j));
                        assert(old(self)@.cells[i].len() == old(self)@.cols());
                        if i == row && j == col {
                            assert(before.at(i, j) == old(self)@.at(i, j));
                            assert(self@.at(i, j) == self.grid@[i]@[j]);
                        } else {
                            assert(self@.at(i, j) == before.at(i, j));
                        }
                    }
                }
                col += 1;
            }
            row += 1;
        }
        assert(self@.cells =~~= old(self)@.with_counts().cells) by {
            assert forall|i: int| 0 <= i < self@.cells.len() implies #[trigger] self@.cells[i]
                =~= old(self)@.with_counts().cells[i] by {
                assert(self@.cells[i].len() == self@.cols());
                assert(old(self)@.cells[i].len() == old(self)@.cols());
                assert forall|j: int| 0 <= j < self@.cells[i].len() implies self@.cells[i][j]
                    == old(self)@.with_counts().cells[i][j] by {
                    assert(self@.in_bounds(i, j));
                    assert(self@.at(i, j) == old(self)@.with_counts().at(i, j));
                }
            }
        }
    }

    /// Whether every cell without a mine has been revealed.
    fn all_safe_revealed(&self) -> (all: bool)
        requires
            self@.rectangular(),
        ensures
            all == self@.all_safe_revealed(),
    {
        let rows = self.grid.len();
        let mut row: usize = 0;
        while row < rows
            invariant
                row <= rows,
                rows == self@.rows(),
                self@.rectangular(),
                forall|i: int, j: int|
                    self@.in_bounds(i, j) && i < row && !(#[trigger] self@.at(i, j)).is_mine
                        ==> self@.at(i, j).is_revealed,
            decreases rows - row,
        {
            proof {
                self.lemma_row(row as int);
            }
            let cols = self.grid[row].len();
            let mut col: usize = 0;
            while col < cols
                invariant
                    row < rows,
                    col <= cols,
                    rows == self@.rows(),
                    cols == self@.cols(),
                    self@.rectangular(),
                    forall|i: int, j: int|
                        self@.in_bounds(i, j) && (i < row || (i == row && j < col)) && !(
                        #[trigger] self@.at(i, j)).is_mine ==> self@.at(i, j).is_revealed,
                decreases cols - col,
            {
                proof {
                    self.lemma_row(row as int);
                }
                let cell = self.grid[row][col];
                if !cell.is_mine && !cell.is_revealed {
                    assert(self@.in_bounds(row as int, col as int) && !self@.at(
                        row as int,
                        col as int,
                    ).is_mine);
                    return false;
                }
                col += 1;
            }
            row += 1;
        }
        true
    }

    /// Where the game stands.
    pub fn state(&self) -> (state: GameState)
        requires
            self@.rectangular(),
        ensures
            state == self@.state(),
    {
        if self.game_over {
            GameState::Lost
        } else if self.all_safe_revealed() {
            GameState::Won
        } else {
            GameState::Playing
        }
    }

    /// Whether the game is won: no mine was hit and every cell without a
    /// mine has been revealed.
    pub fn is_won(&self) -> (won: bool)
        requires
            self@.rectangular(),
        ensures
            won == (self@.state() == GameState::Won),
            won == (!self@.game_over && self@.all_safe_revealed()),
    {
        !self.game_over && self.all_safe_revealed()
    }

    /// Shows the cell at `(row, col)` and takes its flag away.
    fn uncover(&mut self, row: usize, col: usize)
        requires
            old(self)@.rectangular(),
            old(self)@.in_bounds(row as int, col as int),
        ensures
            final(self)@ == old(self)@.with_cell(
                row as int,
                col as int,
                old(self)@.at(row as int, col as int).shown(),
            ),
    {
        proof {
            self.lemma_row(row as int);
        }
        self.grid[row][col].is_revealed = true;
        self.grid[row][col].is_flagged = false;
        assert(self@.cells =~~= old(self)@.with_cell(
            row as int,
            col as int,
            old(self)@.at(row as int, col as int).shown(),
        ).cells);
    }

    /// Shows the neighbour of the busy cell `(row, col)` in direction
    /// `(dr - 1, dc - 1)`, if it lies on the grid and is hidden, and puts it
    /// on the frontier if it spreads.
    fn spread_to(
        &mut self,
        frontier: &mut Vec<(usize, usize)>,
        row: usize,
        col: usize,
        dr: usize,
        dc: usize,
        Ghost(start): Ghost<BoardView>,
        Ghost(origin): Ghost<(int, int)>,
    )
        requires
            start.counts_correct(),
            spreading(
                start,
                old(self)@,
                origin.0,
                origin.1,
                old(frontier)@,
                Some((row as int, col as int)),
            ),
            fresh(start, old(self)@, row as int, col as int),
            dr <= 2,
            dc <= 2,
            !(dr == 1 && dc == 1),
        ensures
            spreading(
                start,
                final(self)@,
                origin.0,
                origin.1,
                final(frontier)@,
                Some((row as int, col as int)),
            ),
            final(self)@.game_over == old(self)@.game_over,
            forall|r: int, c: int|
                start.in_bounds(r, c) && (#[trigger] old(self)@.at(r, c)).is_revealed ==> final(self)@.at(r, c).is_revealed,
            start.in_bounds(row + dr - 1, col + dc - 1) ==> final(self)@.at(
                row + dr - 1,
                col + dc - 1,
            ).is_revealed,
            final(self)@.hidden().len() + final(frontier)@.len() <= old(self)@.hidden().len() + old(frontier)@.len(),
    {
        proof {
            self.lemma_row(row as int);
        }
        let rows = self.grid.len();
        let cols = self.grid[row].len();
        match (shift(row, dr, rows), shift(col, dc, cols)) {
            (Some(r), Some(c)) => {
                proof {
                    self.lemma_row(r as int);
                }
                if !self.grid[r][c].is_revealed {
                    let ghost before = self@;
                    let ghost waiting = frontier@;
                    let ghost (r0, c0) = origin;
                    self.uncover(r, c);
                    proof {
                        self.lemma_row(r as int);
                    }
                    if self.grid[r][c].adjacent_mines == 0 {
                        frontier.push((r, c));
                    }
                    proof {
                        lemma_spread_step(
                            start,
                            before,
                            self@,
                            r0,
                            c0,
                            waiting,
                            frontier@,
                            row as int,
                            col as int,
                            r,
                            c,
                        );
                    }
                }
            },
            _ => {},
        }
    }

    /// Reveals the cell at `(row, col)`.
    ///
    /// Nothing happens once the game is lost or won, off the grid, or on a
    /// cell that is already revealed. A mine ends the game. A cell that
    /// counts no mine around it has its neighbours revealed in turn.
    pub fn reveal_cell(&mut self, row: usize, col: usize)
        requires
            old(self)@.well_formed(),
        ensures
            final(self)@ == old(self)@.after_reveal(row as int, col as int),
            final(self)@.well_formed(),
    {
        proof {
            lemma_reveal_keeps_well_formed(self@, row as int, col as int);
        }
        if self.game_over || row >= self.grid.len() {
            return ;
        }
        proof {
            self.lemma_row(row as int);
        }
        if col >= self.grid[row].len() || self.grid[row][col].is_revealed {
            return ;
        }
        if self.all_safe_revealed() {
            return ;
        }
        let ghost start = self@;
        let ghost origin = (row as int, col as int);
        let mut frontier: Vec<(usize, usize)> = Vec::new();
        self.uncover(row, col);
        proof {
            self.lemma_row(row as int);
            start.lemma_with_cell(row as int, col as int, start.at(row as int, col as int).shown());
            start.lemma_cascade_start(row as int, col as int);
        }
        if self.grid[row][col].is_mine {
            self.game_over = true;
        } else if self.grid[row][col].adjacent_mines == 0 {
            frontier.push((row, col));
        }
        proof {
            let now = self@;
            assert forall|i: int, j: int, i2: int, j2: int|
                fresh(start, now, i, j) && #[trigger] adjacent(i, j, i2, j2) && start.in_bounds(
                    i2,
                    j2,
                ) && !now.at(i2, j2).is_revealed implies on_frontier(frontier@, i, j) by {
                assert(i == row && j == col);
                assert(frontier@[0] == (row, col));
            }
        }
        while frontier.len() > 0
            invariant
                start.well_formed(),
                spreading(start, self@, origin.0, origin.1, frontier@, None),
                origin == (row as int, col as int),
                start.in_bounds(row as int, col as int),
                self@.at(row as int, col as int).is_revealed,
                self@.game_over == start.at(row as int, col as int).is_mine,
            decreases self@.hidden().len() + frontier@.len(),
        {
            let ghost waiting = frontier@;
            let ghost before = self@;
            let (r, c) = frontier.pop().unwrap();
            proof {
                lemma_spread_pop(start, before, origin.0, origin.1, waiting);
                assert(frontier@ =~= waiting.drop_last());
            }
            self.spread_to(&mut frontier, r, c, 0, 0, Ghost(start), Ghost(origin));
            self.spread_to(&mut frontier, r, c, 0, 1, Ghost(start), Ghost(origin));
            self.spread_to(&mut frontier, r, c, 0, 2, Ghost(start), Ghost(origin));
            self.spread_to(&mut frontier, r, c, 1, 0, Ghost(start), Ghost(origin));
            self.spread_to(&mut frontier, r, c, 1, 2, Ghost(start), Ghost(origin));
            self.spread_to(&mut frontier, r, c, 2, 0, Ghost(start), Ghost(origin));
            self.spread_to(&mut frontier, r, c, 2, 1, Ghost(start), Ghost(origin));
            self.spread_to(&mut frontier, r, c, 2, 2, Ghost(start), Ghost(origin));
            proof {
                let now = self@;
                assert forall|i2: int, j2: int|
                    adjacent(r as int, c as int, i2, j2) && start.in_bounds(i2, j2) implies now.at(
                    i2,
                    j2,
                ).is_revealed by {
                    assert(i2 == r + 0 - 1 || i2 == r + 1 - 1 || i2 == r + 2 - 1);
                    assert(j2 == c + 0 - 1 || j2 == c + 1 - 1 || j2 == c + 2 - 1);
                }
                lemma_spread_settled(
                    start,
                    now,
                    origin.0,
                    origin.1,
                    frontier@,
                    r as int,
                    c as int,
                );
            }
        }
        proof {
            assert(frontier@ =~= Seq::empty());
            lemma_spread_done(start, self@, origin.0, origin.1);
        }
    }

    /// Flips the flag of the cell at `(row, col)`.
    ///
    /// Nothing happens once the game is lost or won, off the grid, or on a
    /// revealed cell.
    pub fn toggle_flag(&mut self, row: usize, col: usize)
        requires
            old(self)@.well_formed(),
        ensures
            final(self)@ == old(self)@.after_toggle_flag(row as int, col as int),
            final(self)@.well_formed(),
    {
        proof {
            lemma_toggle_keeps_well_formed(self@, row as int, col as int);
        }
        if self.game_over || row >= self.grid.len() {
            return ;
        }
        proof {
            self.lemma_row(row as int);
        }
        if col >= self.grid[row].len() || self.grid[row][col].is_revealed {
            return ;
        }
        if self.all_safe_revealed() {
            return ;
        }
        let flagged = self.grid[row][col].is_flagged;
        self.grid[row][col].is_flagged = !flagged;
        assert(self@.cells =~~= old(self)@.after_toggle_flag(row as int, col as int).cells);
    }

    /// The first position without a mine, row by row, if there is one.
    fn first_free(&self) -> (spot: Option<(usize, usize)>)
        requires
            self@.rectangular(),
        ensures
            match spot {
                Some((r, c)) => {
                    &&& self@.in_bounds(r as int, c as int)
                    &&& !self@.at(r as int, c as int).is_mine
                    &&& forall|i: int, j: int|
                        self@.in_bounds(i, j) && (i < r || (i == r && j < c)) ==> (
                        #[trigger] self@.at(i, j)).is_mine
                },
                None => forall|i: int, j: int|
                    self@.in_bounds(i, j) ==> (#[trigger] self@.at(i, j)).is_mine,
            },
    {
        let rows = self.grid.len();
        let mut row: usize = 0;
        while row < rows
            invariant
                row <= rows,
                rows == self@.rows(),
                self@.rectangular(),
                forall|i: int, j: int|
                    self@.in_bounds(i, j) && i < row ==> (#[trigger] self@.at(i, j)).is_mine,
            decreases rows - row,
        {
            proof {
                self.lemma_row(row as int);
            }
            let cols = self.grid[row].len();
            let mut col: usize = 0;
            while col < cols
                invariant
                    row < rows,
                    col <= cols,
                    rows == self@.rows(),
                    cols == self@.cols(),
                    self@.rectangular(),
                    forall|i: int, j: int|
                        self@.in_bounds(i, j) && (i < row || (i == row && j < col)) ==> (
                        #[trigger] self@.at(i, j)).is_mine,
                decreases cols - col,
            {
                proof {
                    self.lemma_row(row as int);
                }
                if !self.grid[row][col].is_mine {
                    return Some((row, col));
                }
                col += 1;
            }
            row += 1;
        }
        None
    }

    /// Lays `mine_count` mines on a grid that holds none, then computes the
    /// counts.
    ///
    /// Each mine goes to a position drawn at random; a draw that hits a mine
    /// is thrown away and made again. Should the draws run out, the mines
    /// still missing go to the first free positions, row by row.
    ///
    /// Which positions get a mine is left open. Whatever they are, the
    /// board comes out as the old one with mines there and the counts
    /// computed.
    fn place_mines(&mut self)
        requires
            old(self)@.rectangular(),
            old(self)@.mine_free(),
            old(self)@.mine_count < old(self)@.rows() * old(self)@.cols(),
        ensures
            final(self)@.mines().finite(),
            final(self)@.mines().len() == old(self)@.mine_count,
            final(self)@ == old(self)@.with_mines_at(final(self)@.mines()).with_counts(),
    {
        let rows = self.rows();
        let cols = self.cols();
        assert(rows > 0 && cols > 0) by (nonlinear_arith)
            requires
                0 <= rows * cols - 1,
        {}
        let mut rng = rand::thread_rng();
        let mut placed: usize = 0;
        let mut draws_left: usize = usize::MAX;
        proof {
            self@.lemma_position_sets();
            assert(self@.mines() =~= Set::empty());
        }
        while placed < self.mine_count && draws_left > 0
            invariant
                rows == self@.rows(),
                cols == self@.cols(),
                rows > 0,
                cols > 0,
                self@.rectangular(),
                old(self)@.rectangular(),
                self@.rows() == old(self)@.rows(),
                self@.cols() == old(self)@.cols(),
                self@.mine_count == old(self)@.mine_count,
                self@.game_over == old(self)@.game_over,
                self@.mines().finite(),
                self@.mines().len() == placed,
                placed <= self@.mine_count,
                forall|i: int, j: int|
                    self@.in_bounds(i, j) ==> #[trigger] self@.at(i, j) == (Cell {
                        is_mine: self@.at(i, j).is_mine,
                        ..old(self)@.at(i, j)
                    }),
            decreases draws_left,
        {
            let row = random_below(&mut rng, rows);
            let col = random_below(&mut rng, cols);
            let ghost before = self@;
            if self.place_mine(row, col) {
                proof {
                    before.lemma_with_mine(row as int, col as int);
                    before.lemma_with_cell(
                        row as int,
                        col as int,
                        Cell { is_mine: true, ..before.at(row as int, col as int) },
                    );
                }
                placed += 1;
            }
            draws_left -= 1;
        }
        while placed < self.mine_count
            invariant
                self@.rectangular(),
                old(self)@.rectangular(),
                self@.rows() == old(self)@.rows(),
                self@.cols() == old(self)@.cols(),
                self@.mine_count == old(self)@.mine_count,
                self@.mine_count < self@.rows() * self@.cols(),
                self@.game_over == old(self)@.game_over,
                self@.mines().finite(),
                self@.mines().len() == placed,
                placed <= self@.mine_count,
                forall|i: int, j: int|
                    self@.in_bounds(i, j) ==> #[trigger] self@.at(i, j) == (Cell {
                        is_mine: self@.at(i, j).is_mine,
                        ..old(self)@.at(i, j)
                    }),
            decreases self@.mine_count - placed,
        {
            let ghost before = self@;
            let spot = self.first_free();
            proof {
                let p = before.lemma_free_position();
                assert(!before.at(p.0, p.1).is_mine);
            }
            let (row, col) = spot.unwrap();
            self.place_mine(row, col);
            proof {
                before.lemma_with_mine(row as int, col as int);
                before.lemma_with_cell(
                    row as int,
                    col as int,
                    Cell { is_mine: true, ..before.at(row as int, col as int) },
                );
            }
            placed += 1;
        }
        let ghost laid = self@;
        self.calculate_adjacent_mines();
        proof {
            laid.lemma_with_counts();
            old(self)@.lemma_only_mines_differ(laid);
        }
    }

    /// A board of `rows` by `cols` cells with `mine_count` mines at random
    /// positions, ready for play.
    pub fn with_size(rows: usize, cols: usize, mine_count: usize) -> (board: GameBoard)
        requires
            mine_count < rows * cols,
        ensures
            board@.well_formed(),
            board@.untouched(),
            board@.rows() == rows,
            board@.cols() == cols,
            board@.mine_count == mine_count,
            board@.mines().len() == mine_count,
            board@.state() == GameState::Playing,
    {
        assert(rows > 0 && cols > 0) by (nonlinear_arith)
            requires
                0 <= rows * cols - 1,
        {}
        let mut board = GameBoard { grid: blank_grid(rows, cols), mine_count, game_over: false };
        let ghost blank = board@;
        assert(blank.rectangular());
        board.place_mines();
        proof {
            blank.lemma_fresh_board(board@);
            board@.lemma_untouched_is_playing();
        }
        board
    }

    /// The standard board: `ROWS` by `COLS` cells with `MINES` mines at
    /// random positions.
    pub fn new() -> (board: GameBoard)
        ensures
            board@.well_formed(),
            board@.untouched(),
            board@.rows() == ROWS,
            board@.cols() == COLS,
            board@.mine_count == MINES,
            board@.mines().len() == MINES,
            board@.state() == GameState::Playing,
    {
        GameBoard::with_size(ROWS, COLS, MINES)
    }

    /// A board of `rows` by `cols` cells with mines at the positions listed,
    /// ready for play; `None` if the list is no valid layout.
    pub fn with_mines(rows: usize, cols: usize, mines: &[(usize, usize)]) -> (board: Option<
        GameBoard,
    >)
        ensures
            board.is_some() == valid_layout(rows as int, cols as int, mines@),
            board matches Some(b) ==> {
                &&& b@.well_formed()
                &&& b@.untouched()
                &&& b@.rows() == rows
                &&& b@.cols() == cols
                &&& b@.mine_count == mines@.len()
                &&& b@.mines() == listed(mines@)
                &&& b@.state() == GameState::Playing
            },
    {
        if !fewer_than_cells(mines.len(), rows, cols) {
            return None;
        }
        assert(rows > 0 && cols > 0) by (nonlinear_arith)
            requires
                0 <= rows * cols - 1,
        {}
        let mut board = GameBoard {
            grid: blank_grid(rows, cols),
            mine_count: mines.len(),
            game_over: false,
        };
        let ghost blank = board@;
        assert(blank.rectangular());
        proof {
            blank.lemma_position_sets();
            assert(blank.mines() =~= Set::empty());
            assert(listed(mines@.take(0)) =~= Set::empty());
        }
        let mut k: usize = 0;
        while k < mines.len()
            invariant
                k <= mines@.len(),
                blank.rectangular(),
                board@.rectangular(),
                board@.rows() == blank.rows(),
                board@.cols() == blank.cols(),
                blank.rows() == rows,
                blank.cols() == cols,
                board@.mine_count == blank.mine_count,
                board@.game_over == blank.game_over,
                board@.mines().finite(),
                board@.mines().len() == k,
                board@.mines() == listed(mines@.take(k as int)),
                forall|l: int| 0 <= l < k ==> (#[trigger] mines@[l]).0 < rows && mines@[l].1 < cols,
                forall|l: int, m: int| 0 <= l < m < k ==> mines@[l] != mines@[m],
                forall|i: int, j: int|
                    blank.in_bounds(i, j) ==> #[trigger] board@.at(i, j) == (Cell {
                        is_mine: board@.at(i, j).is_mine,
                        ..blank.at(i, j)
                    }),
            decreases mines@.len() - k,
        {
            let (row, col) = mines[k];
            let ghost before = board@;
            if !board.place_mine(row, col) {
                proof {
                    if before.in_bounds(row as int, col as int) {
                        assert(before.mines().contains((row as int, col as int)));
                        let l = choose|l: int|
                            0 <= l < mines@.take(k as int).len() && (#[trigger] mines@.take(
                                k as int,
                            )[l]).0 == row && mines@.take(k as int)[l].1 == col;
                        assert(mines@[l] == mines@[k as int]);
                    } else {
                        assert(!(mines@[k as int].0 < rows && mines@[k as int].1 < cols));
                    }
                }
                return None;
            }
            proof {
                before.lemma_with_mine(row as int, col as int);
                before.lemma_with_cell(
                    row as int,
                    col as int,
                    Cell { is_mine: true, ..before.at(row as int, col as int) },
                );
                let shorter = mines@.take(k as int);
                let longer = mines@.take(k + 1);
                assert forall|p: (int, int)| listed(longer).contains(p) <==> listed(shorter).insert(
                    (row as int, col as int),
                ).contains(p) by {
                    if listed(longer).contains(p) {
                        let l = choose|l: int|
                            0 <= l < longer.len() && (#[trigger] longer[l]).0 == p.0 && longer[l].1
                                == p.1;
                        if l < k {
                            assert(shorter[l] == longer[l]);
                        }
                    }
                    if listed(shorter).contains(p) {
                        let l = choose|l: int|
                            0 <= l < shorter.len() && (#[trigger] shorter[l]).0 == p.0
                                && shorter[l].1 == p.1;
                        assert(longer[l] == shorter[l]);
                    }
                    if p == (row as int, col as int) {
                        assert(longer[k as int] == (row, col));
                    }
                }
                assert(listed(longer) =~= listed(shorter).insert((row as int, col as int)));
                assert forall|l: int, m: int| 0 <= l < m < k + 1 implies mines@[l] != mines@[m] by {
                    if m == k && mines@[l] == mines@[m] {
                        assert(shorter[l] == mines@[l]);
                        assert(listed(shorter).contains((row as int, col as int)));
                    }
                }
            }
            k += 1;
        }
        let ghost laid = board@;
        board.calculate_adjacent_mines();
        proof {
            assert(mines@.take(mines@.len() as int) =~= mines@);
            laid.lemma_with_counts();
            blank.lemma_only_mines_differ(laid);
            blank.lemma_fresh_board(board@);
            board@.lemma_untouched_is_playing();
        }
        Some(board)
    }

    /// The board as text: one line for each row, and in it for each cell
    /// its glyph and a space.
    pub fn render(&self) -> (text: String)
        ensures
            text@ == grid_text(self@.cells),
    {
        let mut text = String::new();
        let rows = self.grid.len();
        let mut row: usize = 0;
        assert(self@.cells.take(0) =~= Seq::empty());
        while row < rows
            invariant
                row <= rows,
                rows == self@.cells.len(),
                text@ == grid_text(self@.cells.take(row as int)),
            decreases rows - row,
        {
            let cols = self.grid[row].len();
            let ghost above = text@;
            let ghost cells = self@.cells[row as int];
            let mut col: usize = 0;
            assert(cells.take(0) =~= Seq::empty());
            assert(text@ =~= above + row_text(cells.take(0)));
            while col < cols
                invariant
                    row < rows,
                    col <= cols,
                    rows == self@.cells.len(),
                    cells == self@.cells[row as int],
                    cols == cells.len(),
                    text@ == above + row_text(cells.take(col as int)),
                decreases cols - col,
            {
                let symbol = self.grid[row][col].symbol();
                push_char(&mut text, symbol);
                push_char(&mut text, ' ');
                proof {
                    let longer = cells.take(col + 1);
                    assert(longer.drop_last() =~= cells.take(col as int));
                    assert(longer.last() == cells[col as int]);
                    assert(text@ =~= above + row_text(longer));
                }
                col += 1;
            }
            push_char(&mut text, '\n');
            proof {
                let longer = self@.cells.take(row + 1);
                assert(cells.take(cols as int) =~= cells);
                assert(longer.drop_last() =~= self@.cells.take(row as int));
                assert(longer.last() == cells);
                assert(text@ =~= grid_text(longer));
            }
            row += 1;
        }
        assert(self@.cells.take(rows as int) =~= self@.cells);
        text
    }
}

} // verus!
