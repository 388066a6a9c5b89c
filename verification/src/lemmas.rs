use crate::cell::Cell;
use crate::model::{adjacent, linked, BoardView, GameState};
use vstd::prelude::*;
use vstd::set_lib::*;

verus! {

/// The positions of a grid of the given size.
pub open spec fn rectangle(rows: int, cols: int) -> Set<(int, int)> {
    Set::new(|p: (int, int)| 0 <= p.0 < rows && 0 <= p.1 < cols)
}

/// The first `cols` positions of row `r`.
pub open spec fn strip(r: int, cols: int) -> Set<(int, int)> {
    Set::new(|p: (int, int)| p.0 == r && 0 <= p.1 < cols)
}

/// The first `cols` positions of a row are `cols` many.
pub proof fn lemma_strip_size(r: int, cols: int)
    requires
        cols >= 0,
    ensures
        strip(r, cols).finite(),
        strip(r, cols).len() == cols,
    decreases cols,
{
    if cols == 0 {
        assert(strip(r, cols) =~= Set::empty());
    } else {
        lemma_strip_size(r, cols - 1);
        assert(strip(r, cols) =~= strip(r, cols - 1).insert((r, cols - 1)));
    }
}

/// A grid of `rows` by `cols` has `rows * cols` positions.
pub proof fn lemma_rectangle_size(rows: int, cols: int)
    requires
        rows >= 0,
        cols >= 0,
    ensures
        rectangle(rows, cols).finite(),
        rectangle(rows, cols).len() == rows * cols,
    decreases rows,
{
    if rows == 0 {
        assert(rectangle(rows, cols) =~= Set::empty());
    } else {
        let above = rectangle(rows - 1, cols);
        let last = strip(rows - 1, cols);
        lemma_rectangle_size(rows - 1, cols);
        lemma_strip_size(rows - 1, cols);
        assert(rectangle(rows, cols) =~= above.union(last));
        assert(above.disjoint(last));
        lemma_set_disjoint_lens(above, last);
        assert((rows - 1) * cols + cols == rows * cols) by (nonlinear_arith);
    }
}

impl BoardView {
    /// The grid has `rows * cols` positions; the mines and the hidden cells
    /// are finite sets among them.
    pub proof fn lemma_position_sets(self)
        ensures
            self.positions().finite(),
            self.positions().len() == self.rows() * self.cols(),
            self.mines().finite(),
            self.mines().len() <= self.rows() * self.cols(),
            self.hidden().finite(),
            self.hidden().len() <= self.rows() * self.cols(),
    {
        lemma_rectangle_size(self.rows(), self.cols());
        assert(self.positions() =~= rectangle(self.rows(), self.cols()));
        assert(self.mines().subset_of(self.positions()));
        assert(self.hidden().subset_of(self.positions()));
        lemma_len_subset(self.mines(), self.positions());
        lemma_len_subset(self.hidden(), self.positions());
    }

    /// A grid that holds fewer mines than it has positions has a position
    /// without a mine.
    pub proof fn lemma_free_position(self) -> (p: (int, int))
        requires
            self.mines().len() < self.rows() * self.cols(),
        ensures
            self.in_bounds(p.0, p.1),
            !self.at(p.0, p.1).is_mine,
    {
        self.lemma_position_sets();
        if forall|q: (int, int)| self.positions().contains(q) ==> self.mines().contains(q) {
            assert(self.mines() =~= self.positions());
        }
        let p = choose|q: (int, int)| self.positions().contains(q) && !self.mines().contains(q);
        p
    }

    /// Laying a mine on a position that has none adds one to the mines.
    pub proof fn lemma_with_mine(self, r: int, c: int)
        requires
            self.rectangular(),
            self.in_bounds(r, c),
            !self.at(r, c).is_mine,
        ensures
            self.with_mine(r, c).rectangular(),
            self.with_mine(r, c).rows() == self.rows(),
            self.with_mine(r, c).cols() == self.cols(),
            self.with_mine(r, c).mines() == self.mines().insert((r, c)),
            self.with_mine(r, c).mines().len() == self.mines().len() + 1,
    {
        let after = self.with_mine(r, c);
        self.lemma_position_sets();
        assert(after.rows() == self.rows());
        assert(after.cols() == self.cols());
        assert forall|i: int| 0 <= i < after.cells.len() implies (#[trigger] after.cells[i]).len()
            == after.cols() by {
            assert(self.cells[i].len() == self.cols());
        }
        assert forall|p: (int, int)| after.mines().contains(p) <==> self.mines().insert(
            (r, c),
        ).contains(p) by {
            if after.in_bounds(p.0, p.1) {
                if p.0 == r && p.1 == c {
                } else {
                    assert(after.at(p.0, p.1) == self.at(p.0, p.1));
                }
            }
        }
        assert(after.mines() =~= self.mines().insert((r, c)));
    }

    /// The mines around a position depend only on where the mines are.
    pub proof fn lemma_same_mines_same_counts(self, other: BoardView, r: int, c: int)
        requires
            self.rows() == other.rows(),
            self.cols() == other.cols(),
            forall|i: int, j: int|
                self.in_bounds(i, j) ==> (#[trigger] self.at(i, j)).is_mine == other.at(
                    i,
                    j,
                ).is_mine,
        ensures
            self.neighbor_mines(r, c) == other.neighbor_mines(r, c),
            0 <= self.neighbor_mines(r, c) <= 8,
    {
        assert forall|i: int, j: int| self.mine_weight(i, j) == other.mine_weight(i, j) by {
            if self.in_bounds(i, j) {
                assert(self.at(i, j).is_mine == other.at(i, j).is_mine);
            }
        }
    }

    /// A mine next to a position is counted among the mines around it.
    pub proof fn lemma_neighbor_counted(self, r: int, c: int, r2: int, c2: int)
        requires
            adjacent(r, c, r2, c2),
            self.mine_at(r2, c2),
        ensures
            self.neighbor_mines(r, c) >= 1,
    {
        assert(self.mine_weight(r2, c2) == 1);
        assert(self.mine_weight(r - 1, c - 1) >= 0 && self.mine_weight(r - 1, c) >= 0
            && self.mine_weight(r - 1, c + 1) >= 0 && self.mine_weight(r, c - 1) >= 0
            && self.mine_weight(r, c + 1) >= 0 && self.mine_weight(r + 1, c - 1) >= 0
            && self.mine_weight(r + 1, c) >= 0 && self.mine_weight(r + 1, c + 1) >= 0);
        if r2 == r - 1 {
            assert(c2 == c - 1 || c2 == c || c2 == c + 1);
        } else if r2 == r {
            assert(c2 == c - 1 || c2 == c + 1);
        } else {
            assert(r2 == r + 1);
            assert(c2 == c - 1 || c2 == c || c2 == c + 1);
        }
    }

    /// Computing the counts keeps the shape of the grid and changes nothing
    /// but the counts of cells without a mine, which come out right.
    pub proof fn lemma_with_counts(self)
        requires
            self.rectangular(),
        ensures
            self.with_counts().rectangular(),
            self.with_counts().rows() == self.rows(),
            self.with_counts().cols() == self.cols(),
            self.with_counts().mines() == self.mines(),
            forall|i: int, j: int|
                self.in_bounds(i, j) ==> #[trigger] self.with_counts().at(i, j) == (if self.at(
                    i,
                    j,
                ).is_mine {
                    self.at(i, j)
                } else {
                    Cell { adjacent_mines: self.neighbor_mines(i, j) as u8, ..self.at(i, j) }
                }),
            forall|i: int, j: int|
                self.in_bounds(i, j) && !(#[trigger] self.with_counts().at(i, j)).is_mine
                    ==> self.with_counts().at(i, j).adjacent_mines == self.with_counts().neighbor_mines(
                    i,
                    j,
                ),
    {
        let after = self.with_counts();
        if self.cells.len() > 0 {
            assert(self.cells[0].len() == self.cols());
        }
        assert forall|i: int| 0 <= i < after.cells.len() implies (#[trigger] after.cells[i]).len()
            == after.cols() by {
            assert(self.cells[i].len() == self.cols());
        }
        assert forall|i: int, j: int| self.in_bounds(i, j) implies #[trigger] after.at(i, j) == (
        if self.at(i, j).is_mine {
            self.at(i, j)
        } else {
            Cell { adjacent_mines: self.neighbor_mines(i, j) as u8, ..self.at(i, j) }
        }) by {
            assert(self.cells[i].len() == self.cols());
        }
        assert forall|p: (int, int)| after.mines().contains(p) <==> self.mines().contains(p) by {
            if self.in_bounds(p.0, p.1) {
                assert(after.at(p.0, p.1).is_mine == self.at(p.0, p.1).is_mine);
            }
        }
        assert(after.mines() =~= self.mines());
        assert forall|i: int, j: int|
            self.in_bounds(i, j) && !(#[trigger] after.at(i, j)).is_mine implies after.at(
            i,
            j,
        ).adjacent_mines == after.neighbor_mines(i, j) by {
            assert forall|i2: int, j2: int| self.in_bounds(i2, j2) implies (#[trigger] self.at(
                i2,
                j2,
            )).is_mine == after.at(i2, j2).is_mine by {}
            self.lemma_same_mines_same_counts(after, i, j);
        }
    }

    /// Laying mines keeps the shape of the grid and changes nothing but
    /// where the mines are.
    pub proof fn lemma_with_mines_at(self, spots: Set<(int, int)>)
        requires
            self.rectangular(),
        ensures
            self.with_mines_at(spots).rectangular(),
            self.with_mines_at(spots).rows() == self.rows(),
            self.with_mines_at(spots).cols() == self.cols(),
            forall|i: int, j: int|
                self.in_bounds(i, j) ==> #[trigger] self.with_mines_at(spots).at(i, j) == (Cell {
                    is_mine: spots.contains((i, j)),
                    ..self.at(i, j)
                }),
    {
        let after = self.with_mines_at(spots);
        if self.cells.len() > 0 {
            assert(self.cells[0].len() == self.cols());
        }
        assert forall|i: int| 0 <= i < after.cells.len() implies (#[trigger] after.cells[i]).len()
            == after.cols() by {
            assert(self.cells[i].len() == self.cols());
        }
        assert forall|i: int, j: int| self.in_bounds(i, j) implies #[trigger] after.at(i, j) == (
        Cell { is_mine: spots.contains((i, j)), ..self.at(i, j) }) by {
            assert(self.cells[i].len() == self.cols());
        }
    }

    /// A board that differs from this one only in where the mines are is
    /// this one with those mines laid.
    pub proof fn lemma_only_mines_differ(self, laid: BoardView)
        requires
            self.rectangular(),
            laid.rectangular(),
            laid.rows() == self.rows(),
            laid.cols() == self.cols(),
            laid.mine_count == self.mine_count,
            laid.game_over == self.game_over,
            forall|i: int, j: int|
                self.in_bounds(i, j) ==> #[trigger] laid.at(i, j) == (Cell {
                    is_mine: laid.at(i, j).is_mine,
                    ..self.at(i, j)
                }),
        ensures
            laid == self.with_mines_at(laid.mines()),
    {
        let seeded = self.with_mines_at(laid.mines());
        assert forall|i: int| 0 <= i < laid.cells.len() implies #[trigger] laid.cells[i]
            =~= seeded.cells[i] by {
            assert(laid.cells[i].len() == laid.cols());
            assert(self.cells[i].len() == self.cols());
            assert forall|j: int| 0 <= j < laid.cells[i].len() implies laid.cells[i][j]
                == seeded.cells[i][j] by {
                assert(laid.in_bounds(i, j));
                assert(laid.at(i, j) == (Cell { is_mine: laid.at(i, j).is_mine, ..self.at(i, j) }));
                assert(laid.mines().contains((i, j)) == laid.at(i, j).is_mine);
            }
        }
        assert(laid.cells =~~= seeded.cells);
    }

    /// A grid of blank cells on which mines were laid, fewer than it has
    /// positions, and the counts computed, is a well-formed board that
    /// nobody has touched.
    pub proof fn lemma_fresh_board(self, board: BoardView)
        requires
            self.rectangular(),
            !self.game_over,
            forall|i: int, j: int| self.in_bounds(i, j) ==> #[trigger] self.at(i, j) == Cell::blank(),
            board == self.with_mines_at(board.mines()).with_counts(),
            board.mines().finite(),
            board.mines().len() == self.mine_count,
            self.mine_count < self.rows() * self.cols(),
        ensures
            board.well_formed(),
            board.untouched(),
            board.rows() == self.rows(),
            board.cols() == self.cols(),
            board.mine_count == self.mine_count,
    {
        let seeded = self.with_mines_at(board.mines());
        self.lemma_with_mines_at(board.mines());
        seeded.lemma_with_counts();
        assert forall|i: int, j: int| board.in_bounds(i, j) implies !(#[trigger] board.at(
            i,
            j,
        )).is_revealed && !board.at(i, j).is_flagged && (board.at(i, j).is_mine ==> board.at(
            i,
            j,
        ).adjacent_mines == 0) by {
            assert(seeded.at(i, j) == (Cell {
                is_mine: board.mines().contains((i, j)),
                ..self.at(i, j)
            }));
        }
    }

    /// A well-formed board that nobody has touched is in play.
    pub proof fn lemma_untouched_is_playing(self)
        requires
            self.well_formed(),
            self.untouched(),
        ensures
            self.state() == GameState::Playing,
    {
        let p = self.lemma_free_position();
        assert(!self.at(p.0, p.1).is_revealed);
    }

    /// Replacing one cell keeps the shape of the grid and every other cell.
    pub proof fn lemma_with_cell(self, r: int, c: int, cell: Cell)
        requires
            self.rectangular(),
            self.in_bounds(r, c),
        ensures
            self.with_cell(r, c, cell).rectangular(),
            self.with_cell(r, c, cell).rows() == self.rows(),
            self.with_cell(r, c, cell).cols() == self.cols(),
            self.with_cell(r, c, cell).mine_count == self.mine_count,
            self.with_cell(r, c, cell).game_over == self.game_over,
            forall|i: int, j: int|
                self.in_bounds(i, j) ==> #[trigger] self.with_cell(r, c, cell).at(i, j) == (if i
                    == r && j == c {
                    cell
                } else {
                    self.at(i, j)
                }),
    {
        let after = self.with_cell(r, c, cell);
        assert(self.cells[r].len() == self.cols());
        assert(self.cells[0].len() == self.cols());
        assert(after.cols() == self.cols());
        assert forall|i: int| 0 <= i < after.cells.len() implies (#[trigger] after.cells[i]).len()
            == after.cols() by {
            assert(self.cells[i].len() == self.cols());
        }
        assert forall|i: int, j: int| self.in_bounds(i, j) implies #[trigger] after.at(i, j) == (
        if i == r && j == c {
            cell
        } else {
            self.at(i, j)
        }) by {
            assert(self.cells[i].len() == self.cols());
        }
    }

    /// Showing a hidden cell takes it, and nothing else, out of the hidden
    /// cells.
    pub proof fn lemma_show_cell(self, r: int, c: int)
        requires
            self.rectangular(),
            self.in_bounds(r, c),
            !self.at(r, c).is_revealed,
        ensures
            self.with_cell(r, c, self.at(r, c).shown()).hidden() == self.hidden().remove((r, c)),
            self.with_cell(r, c, self.at(r, c).shown()).hidden().len() == self.hidden().len() - 1,
            self.hidden().finite(),
    {
        let after = self.with_cell(r, c, self.at(r, c).shown());
        self.lemma_with_cell(r, c, self.at(r, c).shown());
        self.lemma_position_sets();
        assert forall|p: (int, int)| after.hidden().contains(p) <==> self.hidden().remove(
            (r, c),
        ).contains(p) by {
            if self.in_bounds(p.0, p.1) {
                assert(after.at(p.0, p.1) == (if p.0 == r && p.1 == c {
                    self.at(r, c).shown()
                } else {
                    self.at(p.0, p.1)
                }));
            }
        }
        assert(after.hidden() =~= self.hidden().remove((r, c)));
        assert(self.hidden().contains((r, c)));
    }

    /// A reveal that reaches a cell which spreads also reaches every hidden
    /// cell next to it.
    pub proof fn lemma_cascade_step(self, r0: int, c0: int, r: int, c: int, r2: int, c2: int)
        requires
            self.cascades_to(r0, c0, r, c),
            self.spreads(r, c),
            adjacent(r, c, r2, c2),
            self.in_bounds(r2, c2),
            !self.at(r2, c2).is_revealed,
        ensures
            self.cascades_to(r0, c0, r2, c2),
    {
        let path = choose|path: Seq<(int, int)>|
            #[trigger] self.cascade_path(path) && path.first() == (r0, c0) && path.last() == (r, c);
        let longer = path.push((r2, c2));
        assert forall|i: int| 0 <= i < longer.len() implies self.in_bounds(
            (#[trigger] longer[i]).0,
            longer[i].1,
        ) && !self.at(longer[i].0, longer[i].1).is_revealed by {
            if i < path.len() {
                assert(longer[i] == path[i]);
            }
        }
        assert forall|i: int| 0 <= i < longer.len() - 1 implies #[trigger] linked(longer, i)
            && self.spreads(longer[i].0, longer[i].1) by {
            assert(longer[i] == path[i]);
            if i < path.len() - 1 {
                assert(longer[i + 1] == path[i + 1]);
                assert(linked(path, i));
            }
        }
        assert(self.cascade_path(longer));
        assert(longer.first() == (r0, c0));
        assert(longer.last() == (r2, c2));
    }

    /// A reveal of a hidden cell of the grid reaches that cell.
    pub proof fn lemma_cascade_start(self, r: int, c: int)
        requires
            self.in_bounds(r, c),
            !self.at(r, c).is_revealed,
        ensures
            self.cascades_to(r, c, r, c),
    {
        let path = seq![(r, c)];
        assert(self.cascade_path(path));
        assert(path.first() == (r, c) && path.last() == (r, c));
    }

    /// A reveal reaches hidden cells of the grid only; and if the cell it
    /// starts from does not spread, it reaches that cell alone.
    pub proof fn lemma_cascade_reach(self, r0: int, c0: int, r: int, c: int)
        requires
            self.cascades_to(r0, c0, r, c),
        ensures
            self.in_bounds(r0, c0),
            !self.at(r0, c0).is_revealed,
            self.in_bounds(r, c),
            !self.at(r, c).is_revealed,
            !self.spreads(r0, c0) ==> r == r0 && c == c0,
    {
        let path = choose|path: Seq<(int, int)>|
            #[trigger] self.cascade_path(path) && path.first() == (r0, c0) && path.last() == (r, c);
        assert(path[0] == (r0, c0));
        assert(path[path.len() - 1] == (r, c));
        if path.len() > 1 {
            assert(linked(path, 0));
        }
    }
}

} // verus!
