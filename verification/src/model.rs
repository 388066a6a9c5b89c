use crate::cell::Cell;
use vstd::prelude::*;

verus! {

/// Whether two grid positions are distinct and touch: side by side, one above
/// the other, or diagonally.
pub open spec fn adjacent(r1: int, c1: int, r2: int, c2: int) -> bool {
    &&& (r1 != r2 || c1 != c2)
    &&& r1 - 1 <= r2 <= r1 + 1
    &&& c1 - 1 <= c2 <= c1 + 1
}

/// Whether position `i` of a path and the next one are adjacent.
pub open spec fn linked(path: Seq<(int, int)>, i: int) -> bool {
    adjacent(path[i].0, path[i].1, path[i + 1].0, path[i + 1].1)
}

/// Where a game stands.
#[derive(Clone, Copy, Debug, PartialEq, Eq, Structural)]
pub enum GameState {
    Playing,
    Lost,
    Won,
}

/// The mathematical model of a board: the grid as a sequence of rows, the
/// number of mines the board is meant to hold, and whether a mine was hit.
pub struct BoardView {
    pub cells: Seq<Seq<Cell>>,
    pub mine_count: nat,
    pub game_over: bool,
}

/// The positions named in a list of coordinates.
pub open spec fn listed(spots: Seq<(usize, usize)>) -> Set<(int, int)> {
    Set::new(
        |p: (int, int)|
            exists|k: int| 0 <= k < spots.len() && (#[trigger] spots[k]).0 == p.0 && spots[k].1 == p.1,
    )
}

/// Whether a list of coordinates can be the mines of a grid of the given
/// size: each lies on the grid, none comes twice, and at least one position
/// stays free.
pub open spec fn valid_layout(rows: int, cols: int, spots: Seq<(usize, usize)>) -> bool {
    &&& spots.len() < rows * cols
    &&& forall|k: int| 0 <= k < spots.len() ==> (#[trigger] spots[k]).0 < rows && spots[k].1 < cols
    &&& forall|k: int, l: int| 0 <= k < l < spots.len() ==> spots[k] != spots[l]
}

impl BoardView {
    /// The number of rows.
    pub open spec fn rows(self) -> int {
        self.cells.len() as int
    }

    /// The number of columns: the length of the first row.
    pub open spec fn cols(self) -> int {
        if self.cells.len() > 0 {
            self.cells[0].len() as int
        } else {
            0
        }
    }

    /// Every row has the same length.
    pub open spec fn rectangular(self) -> bool {
        forall|i: int| 0 <= i < self.cells.len() ==> (#[trigger] self.cells[i]).len() == self.cols()
    }

    /// Whether `(r, c)` is a position of the grid.
    pub open spec fn in_bounds(self, r: int, c: int) -> bool {
        0 <= r < self.rows() && 0 <= c < self.cols()
    }

    /// The cell at `(r, c)`.
    pub open spec fn at(self, r: int, c: int) -> Cell {
        self.cells[r][c]
    }

    /// Whether `(r, c)` lies on the grid and holds a mine.
    pub open spec fn mine_at(self, r: int, c: int) -> bool {
        self.in_bounds(r, c) && self.at(r, c).is_mine
    }

    /// 1 for a mine on the grid, 0 for any other position, off the grid too.
    pub open spec fn mine_weight(self, r: int, c: int) -> int {
        if self.mine_at(r, c) {
            1
        } else {
            0
        }
    }

    /// The number of mines among the up to eight neighbours of `(r, c)`.
    /// Positions off the grid count for nothing; there is no wraparound.
    pub open spec fn neighbor_mines(self, r: int, c: int) -> int {
        self.mine_weight(r - 1, c - 1) + self.mine_weight(r - 1, c) + self.mine_weight(r - 1, c + 1)
            + self.mine_weight(r, c - 1) + self.mine_weight(r, c + 1) + self.mine_weight(
            r + 1,
            c - 1,
        ) + self.mine_weight(r + 1, c) + self.mine_weight(r + 1, c + 1)
    }

    /// The mines next to `(r, c)`.
    pub open spec fn mines_around(self, r: int, c: int) -> Set<(int, int)> {
        Set::new(|p: (int, int)| self.mine_at(p.0, p.1) && adjacent(r, c, p.0, p.1))
    }

    /// The positions of the grid.
    pub open spec fn positions(self) -> Set<(int, int)> {
        Set::new(|p: (int, int)| self.in_bounds(p.0, p.1))
    }

    /// The positions that hold a mine.
    pub open spec fn mines(self) -> Set<(int, int)> {
        Set::new(|p: (int, int)| self.mine_at(p.0, p.1))
    }

    /// The positions that have not been revealed.
    pub open spec fn hidden(self) -> Set<(int, int)> {
        Set::new(|p: (int, int)| self.in_bounds(p.0, p.1) && !self.at(p.0, p.1).is_revealed)
    }

    /// No cell has been revealed or flagged, and no mine was hit.
    pub open spec fn untouched(self) -> bool {
        &&& !self.game_over
        &&& forall|r: int, c: int|
            self.in_bounds(r, c) ==> !(#[trigger] self.at(r, c)).is_revealed && !self.at(
                r,
                c,
            ).is_flagged
    }

    /// Every cell without a mine carries the number of mines around it, and
    /// every mine carries zero.
    pub open spec fn counts_correct(self) -> bool {
        forall|r: int, c: int|
            self.in_bounds(r, c) ==> (#[trigger] self.at(r, c)).adjacent_mines == (if self.at(
                r,
                c,
            ).is_mine {
                0
            } else {
                self.neighbor_mines(r, c)
            })
    }

    /// No cell is both flagged and revealed.
    pub open spec fn exclusive(self) -> bool {
        forall|r: int, c: int|
            self.in_bounds(r, c) ==> !((#[trigger] self.at(r, c)).is_revealed && self.at(
                r,
                c,
            ).is_flagged)
    }

    /// Whether revealing `(r, c)` spreads to its neighbours: it is on the
    /// grid, holds no mine and counts no mine around it.
    pub open spec fn spreads(self, r: int, c: int) -> bool {
        self.in_bounds(r, c) && !self.at(r, c).is_mine && self.at(r, c).adjacent_mines == 0
    }

    /// Around a revealed cell that spreads, everything is revealed.
    pub open spec fn flood_closed(self) -> bool {
        forall|r: int, c: int, r2: int, c2: int|
            self.spreads(r, c) && self.at(r, c).is_revealed && #[trigger] adjacent(r, c, r2, c2)
                && self.in_bounds(r2, c2) ==> self.at(r2, c2).is_revealed
    }

    /// A mine was hit exactly if some mine lies revealed.
    pub open spec fn loss_recorded(self) -> bool {
        self.game_over <==> exists|r: int, c: int|
            self.in_bounds(r, c) && (#[trigger] self.at(r, c)).is_mine && self.at(r, c).is_revealed
    }

    /// The invariant of a board in play.
    pub open spec fn well_formed(self) -> bool {
        &&& self.rectangular()
        &&& self.mine_count < self.rows() * self.cols()
        &&& self.mines().finite()
        &&& self.mines().len() == self.mine_count
        &&& self.counts_correct()
        &&& self.exclusive()
        &&& self.flood_closed()
        &&& self.loss_recorded()
    }

    /// Every cell without a mine has been revealed.
    pub open spec fn all_safe_revealed(self) -> bool {
        forall|r: int, c: int|
            self.in_bounds(r, c) && !(#[trigger] self.at(r, c)).is_mine ==> self.at(
                r,
                c,
            ).is_revealed
    }

    /// Where the game stands: lost once a mine was hit, won once every cell
    /// without a mine is revealed, in play otherwise.
    pub open spec fn state(self) -> GameState {
        if self.game_over {
            GameState::Lost
        } else if self.all_safe_revealed() {
            GameState::Won
        } else {
            GameState::Playing
        }
    }

    /// Whether the game is neither lost nor won.
    pub open spec fn playing(self) -> bool {
        self.state() == GameState::Playing
    }

    /// The grid with the cell at `(r, c)` replaced; unchanged off the grid.
    pub open spec fn with_cell(self, r: int, c: int, cell: Cell) -> BoardView {
        if self.in_bounds(r, c) {
            BoardView { cells: self.cells.update(r, self.cells[r].update(c, cell)), ..self }
        } else {
            self
        }
    }

    /// The board after an attempt to lay a mine at `(r, c)`: nothing happens
    /// off the grid.
    pub open spec fn with_mine(self, r: int, c: int) -> BoardView {
        self.with_cell(r, c, Cell { is_mine: true, ..self.at(r, c) })
    }

    /// No cell holds a mine.
    pub open spec fn mine_free(self) -> bool {
        forall|r: int, c: int| self.in_bounds(r, c) ==> !(#[trigger] self.at(r, c)).is_mine
    }

    /// The board with mines at exactly the positions in `spots`.
    pub open spec fn with_mines_at(self, spots: Set<(int, int)>) -> BoardView {
        BoardView {
            cells: Seq::new(
                self.cells.len(),
                |i: int|
                    Seq::new(
                        self.cells[i].len(),
                        |j: int| Cell { is_mine: spots.contains((i, j)), ..self.at(i, j) },
                    ),
            ),
            ..self
        }
    }

    /// The board with the count of every cell without a mine computed anew.
    /// Mines keep the count they have.
    pub open spec fn with_counts(self) -> BoardView {
        BoardView {
            cells: Seq::new(
                self.cells.len(),
                |i: int|
                    Seq::new(
                        self.cells[i].len(),
                        |j: int|
                            if self.at(i, j).is_mine {
                                self.at(i, j)
                            } else {
                                Cell {
                                    adjacent_mines: self.neighbor_mines(i, j) as u8,
                                    ..self.at(i, j)
                                }
                            },
                    ),
            ),
            ..self
        }
    }

    /// A way along which a reveal spreads: it runs over hidden cells of the
    /// grid, each next to the one before, and every cell but the last
    /// spreads.
    pub open spec fn cascade_path(self, path: Seq<(int, int)>) -> bool {
        &&& path.len() > 0
        &&& forall|i: int|
            0 <= i < path.len() ==> self.in_bounds((#[trigger] path[i]).0, path[i].1) && !self.at(
                path[i].0,
                path[i].1,
            ).is_revealed
        &&& forall|i: int|
            0 <= i < path.len() - 1 ==> #[trigger] linked(path, i) && self.spreads(
                path[i].0,
                path[i].1,
            )
    }

    /// Whether a reveal of `(r0, c0)` reaches `(r, c)`.
    pub open spec fn cascades_to(self, r0: int, c0: int, r: int, c: int) -> bool {
        exists|path: Seq<(int, int)>|
            #[trigger] self.cascade_path(path) && path.first() == (r0, c0) && path.last() == (r, c)
    }

    /// A way through cells that spread, each next to the one before.
    pub open spec fn zero_path(self, path: Seq<(int, int)>) -> bool {
        &&& path.len() > 0
        &&& forall|i: int| 0 <= i < path.len() ==> self.spreads((#[trigger] path[i]).0, path[i].1)
        &&& forall|i: int| 0 <= i < path.len() - 1 ==> #[trigger] linked(path, i)
    }

    /// Whether `(r, c)` and `(r2, c2)` lie in one connected region of cells
    /// that spread.
    pub open spec fn same_region(self, r: int, c: int, r2: int, c2: int) -> bool {
        exists|path: Seq<(int, int)>|
            #[trigger] self.zero_path(path) && path.first() == (r, c) && path.last() == (r2, c2)
    }

    /// The board after `(r, c)` was asked to be revealed.
    ///
    /// Nothing happens once the game is lost or won, off the grid, or on a
    /// cell that is already revealed. Otherwise every cell that the reveal
    /// reaches is shown, and the game is lost if `(r, c)` holds a mine.
    pub open spec fn after_reveal(self, r: int, c: int) -> BoardView {
        if self.playing() && self.in_bounds(r, c) && !self.at(r, c).is_revealed {
            BoardView {
                cells: Seq::new(
                    self.cells.len(),
                    |i: int|
                        Seq::new(
                            self.cells[i].len(),
                            |j: int|
                                if self.cascades_to(r, c, i, j) {
                                    self.at(i, j).shown()
                                } else {
                                    self.at(i, j)
                                },
                        ),
                ),
                mine_count: self.mine_count,
                game_over: self.at(r, c).is_mine,
            }
        } else {
            self
        }
    }

    /// The board after the cells listed were asked to be revealed, one after
    /// the other.
    pub open spec fn after_reveals(self, cells: Seq<(int, int)>) -> BoardView
        decreases cells.len(),
    {
        if cells.len() == 0 {
            self
        } else {
            self.after_reveals(cells.drop_last()).after_reveal(cells.last().0, cells.last().1)
        }
    }

    /// The board after the flag of `(r, c)` was asked to be flipped.
    ///
    /// Nothing happens once the game is lost or won, off the grid, or on a
    /// revealed cell.
    pub open spec fn after_toggle_flag(self, r: int, c: int) -> BoardView {
        if self.playing() && self.in_bounds(r, c) && !self.at(r, c).is_revealed {
            self.with_cell(r, c, Cell { is_flagged: !self.at(r, c).is_flagged, ..self.at(r, c) })
        } else {
            self
        }
    }
}

} // verus!
