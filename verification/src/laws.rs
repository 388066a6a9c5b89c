use crate::cell::Cell;
use crate::command::Command;
use crate::model::{adjacent, linked, BoardView, GameState};
use vstd::prelude::*;

verus! {

/// A reveal that takes effect keeps the shape of the grid, shows every cell
/// it reaches and leaves every other cell as it was.
pub proof fn lemma_reveal_cells(b: BoardView, r: int, c: int)
    requires
        b.rectangular(),
        b.playing(),
        b.in_bounds(r, c),
        !b.at(r, c).is_revealed,
    ensures
        b.after_reveal(r, c).rectangular(),
        b.after_reveal(r, c).rows() == b.rows(),
        b.after_reveal(r, c).cols() == b.cols(),
        b.after_reveal(r, c).at(r, c) == b.at(r, c).shown(),
        forall|i: int, j: int|
            b.in_bounds(i, j) ==> #[trigger] b.after_reveal(r, c).at(i, j) == (if b.cascades_to(
                r,
                c,
                i,
                j,
            ) {
                b.at(i, j).shown()
            } else {
                b.at(i, j)
            }),
{
    let a = b.after_reveal(r, c);
    assert(b.cells[0].len() == b.cols());
    assert forall|i: int| 0 <= i < a.cells.len() implies (#[trigger] a.cells[i]).len()
        == a.cols() by {
        assert(b.cells[i].len() == b.cols());
    }
    assert forall|i: int, j: int| b.in_bounds(i, j) implies #[trigger] a.at(i, j) == (
    if b.cascades_to(r, c, i, j) {
        b.at(i, j).shown()
    } else {
        b.at(i, j)
    }) by {
        assert(b.cells[i].len() == b.cols());
    }
    b.lemma_cascade_start(r, c);
}

/// A reveal that starts elsewhere never reaches a mine.
pub proof fn lemma_cascade_spares_mines(b: BoardView, r0: int, c0: int, r: int, c: int)
    requires
        b.counts_correct(),
        b.cascades_to(r0, c0, r, c),
        b.at(r, c).is_mine,
    ensures
        r == r0 && c == c0,
{
    let path = choose|path: Seq<(int, int)>|
        #[trigger] b.cascade_path(path) && path.first() == (r0, c0) && path.last() == (r, c);
    if path.len() > 1 {
        let p = path[path.len() - 2];
        let q = path[path.len() - 1];
        assert(linked(path, path.len() - 2));
        assert(b.spreads(p.0, p.1) && adjacent(p.0, p.1, q.0, q.1));
        assert(b.in_bounds(q.0, q.1));
        assert(b.at(p.0, p.1).adjacent_mines == b.neighbor_mines(p.0, p.1));
        b.lemma_neighbor_counted(p.0, p.1, q.0, q.1);
    }
}

/// Revealing keeps a board well formed: the mines and their number stay,
/// the counts stay right, no cell is both flagged and revealed, everything
/// around a revealed cell that spreads is revealed, and the game is lost
/// exactly if a mine lies revealed.
pub proof fn lemma_reveal_keeps_well_formed(b: BoardView, r: int, c: int)
    requires
        b.well_formed(),
    ensures
        b.after_reveal(r, c).well_formed(),
{
    let a = b.after_reveal(r, c);
    if b.playing() && b.in_bounds(r, c) && !b.at(r, c).is_revealed {
        lemma_reveal_cells(b, r, c);
        assert forall|p: (int, int)| a.mines().contains(p) <==> b.mines().contains(p) by {
            if b.in_bounds(p.0, p.1) {
                assert(a.at(p.0, p.1).is_mine == b.at(p.0, p.1).is_mine);
            }
        }
        assert(a.mines() =~= b.mines());
        assert forall|i: int, j: int| a.in_bounds(i, j) implies (#[trigger] a.at(
            i,
            j,
        )).adjacent_mines == (if a.at(i, j).is_mine {
            0
        } else {
            a.neighbor_mines(i, j)
        }) by {
            assert(b.at(i, j).adjacent_mines == (if b.at(i, j).is_mine {
                0
            } else {
                b.neighbor_mines(i, j)
            }));
            assert forall|i2: int, j2: int| b.in_bounds(i2, j2) implies (#[trigger] b.at(
                i2,
                j2,
            )).is_mine == a.at(i2, j2).is_mine by {}
            b.lemma_same_mines_same_counts(a, i, j);
        }
        assert forall|i: int, j: int| a.in_bounds(i, j) implies !((#[trigger] a.at(
            i,
            j,
        )).is_revealed && a.at(i, j).is_flagged) by {
            assert(!(b.at(i, j).is_revealed && b.at(i, j).is_flagged));
        }
        assert forall|i: int, j: int, i2: int, j2: int|
            a.spreads(i, j) && a.at(i, j).is_revealed && #[trigger] adjacent(i, j, i2, j2)
                && a.in_bounds(i2, j2) implies a.at(i2, j2).is_revealed by {
            assert(a.at(i, j).is_mine == b.at(i, j).is_mine);
            assert(b.spreads(i, j));
            assert(b.in_bounds(i2, j2));
            if !b.at(i2, j2).is_revealed {
                assert(b.cascades_to(r, c, i, j)) by {
                    if b.at(i, j).is_revealed {
                        assert(b.at(i2, j2).is_revealed);
                    }
                }
                b.lemma_cascade_step(r, c, i, j, i2, j2);
                assert(a.at(i2, j2) == b.at(i2, j2).shown());
            } else {
                assert(a.at(i2, j2).is_revealed);
            }
        }
        if b.at(r, c).is_mine {
            assert(a.in_bounds(r, c) && a.at(r, c).is_mine && a.at(r, c).is_revealed);
        } else {
            assert forall|i: int, j: int| a.in_bounds(i, j) && (#[trigger] a.at(i, j)).is_mine
                implies !a.at(i, j).is_revealed by {
                assert(b.in_bounds(i, j) && b.at(i, j).is_mine);
                assert(!b.at(i, j).is_revealed);
                if b.cascades_to(r, c, i, j) {
                    lemma_cascade_spares_mines(b, r, c, i, j);
                }
            }
        }
    }
}

/// A second reveal of the same cell changes nothing.
pub proof fn lemma_reveal_idempotent(b: BoardView, r: int, c: int)
    requires
        b.rectangular(),
    ensures
        b.after_reveal(r, c).after_reveal(r, c) == b.after_reveal(r, c),
{
    if b.playing() && b.in_bounds(r, c) && !b.at(r, c).is_revealed {
        lemma_reveal_cells(b, r, c);
    }
}

/// Off the grid, on negative coordinates too, neither a reveal nor a flag
/// changes the board.
pub proof fn lemma_off_grid_changes_nothing(b: BoardView, r: int, c: int)
    requires
        !b.in_bounds(r, c),
    ensures
        b.after_reveal(r, c) == b,
        b.after_toggle_flag(r, c) == b,
{
}

/// Once the game is lost or won, neither a reveal nor a flag changes the
/// board.
pub proof fn lemma_ended_game_changes_nothing(b: BoardView, r: int, c: int)
    requires
        b.state() != GameState::Playing,
    ensures
        b.after_reveal(r, c) == b,
        b.after_toggle_flag(r, c) == b,
{
}

/// A flag that takes effect flips the flag of its cell and changes nothing
/// else.
pub proof fn lemma_toggle_cells(b: BoardView, r: int, c: int)
    requires
        b.rectangular(),
        b.playing(),
        b.in_bounds(r, c),
        !b.at(r, c).is_revealed,
    ensures
        b.after_toggle_flag(r, c).rectangular(),
        b.after_toggle_flag(r, c).rows() == b.rows(),
        b.after_toggle_flag(r, c).cols() == b.cols(),
        b.after_toggle_flag(r, c).mine_count == b.mine_count,
        b.after_toggle_flag(r, c).game_over == b.game_over,
        forall|i: int, j: int|
            b.in_bounds(i, j) ==> #[trigger] b.after_toggle_flag(r, c).at(i, j) == (if i == r && j
                == c {
                Cell { is_flagged: !b.at(r, c).is_flagged, ..b.at(r, c) }
            } else {
                b.at(i, j)
            }),
{
    b.lemma_with_cell(r, c, Cell { is_flagged: !b.at(r, c).is_flagged, ..b.at(r, c) });
}

/// Flagging never reveals a cell, and never hides one.
pub proof fn lemma_toggle_never_reveals(b: BoardView, r: int, c: int, i: int, j: int)
    requires
        b.rectangular(),
        b.in_bounds(i, j),
    ensures
        b.after_toggle_flag(r, c).at(i, j).is_revealed == b.at(i, j).is_revealed,
{
    if b.playing() && b.in_bounds(r, c) && !b.at(r, c).is_revealed {
        lemma_toggle_cells(b, r, c);
    }
}

/// Flagging a revealed cell changes nothing.
pub proof fn lemma_toggle_on_revealed_changes_nothing(b: BoardView, r: int, c: int)
    requires
        b.in_bounds(r, c),
        b.at(r, c).is_revealed,
    ensures
        b.after_toggle_flag(r, c) == b,
{
}

/// Flagging twice brings the board back.
pub proof fn lemma_toggle_twice(b: BoardView, r: int, c: int)
    requires
        b.rectangular(),
    ensures
        b.after_toggle_flag(r, c).after_toggle_flag(r, c) == b,
{
    if b.playing() && b.in_bounds(r, c) && !b.at(r, c).is_revealed {
        let once = b.after_toggle_flag(r, c);
        lemma_toggle_cells(b, r, c);
        assert(once.all_safe_revealed() == b.all_safe_revealed()) by {
            if b.all_safe_revealed() {
                assert forall|i: int, j: int|
                    once.in_bounds(i, j) && !(#[trigger] once.at(i, j)).is_mine implies once.at(
                    i,
                    j,
                ).is_revealed by {
                    assert(b.at(i, j).is_revealed);
                }
            }
            if once.all_safe_revealed() {
                assert forall|i: int, j: int|
                    b.in_bounds(i, j) && !(#[trigger] b.at(i, j)).is_mine implies b.at(
                    i,
                    j,
                ).is_revealed by {
                    assert(once.at(i, j).is_revealed);
                }
            }
        }
        lemma_toggle_cells(once, r, c);
        let twice = once.after_toggle_flag(r, c);
        assert forall|i: int| 0 <= i < b.cells.len() implies #[trigger] twice.cells[i]
            =~= b.cells[i] by {
            assert(b.cells[i].len() == b.cols());
            assert(twice.cells[i].len() == twice.cols());
            assert forall|j: int| 0 <= j < b.cells[i].len() implies twice.cells[i][j]
                == b.cells[i][j] by {
                assert(twice.at(i, j) == b.at(i, j));
            }
        }
        assert(twice.cells =~~= b.cells);
    }
}

/// Flagging keeps a board well formed; in particular no cell is ever both
/// flagged and revealed.
pub proof fn lemma_toggle_keeps_well_formed(b: BoardView, r: int, c: int)
    requires
        b.well_formed(),
    ensures
        b.after_toggle_flag(r, c).well_formed(),
{
    let a = b.after_toggle_flag(r, c);
    if b.playing() && b.in_bounds(r, c) && !b.at(r, c).is_revealed {
        lemma_toggle_cells(b, r, c);
        assert forall|p: (int, int)| a.mines().contains(p) <==> b.mines().contains(p) by {
            if b.in_bounds(p.0, p.1) {
                assert(a.at(p.0, p.1).is_mine == b.at(p.0, p.1).is_mine);
            }
        }
        assert(a.mines() =~= b.mines());
        assert forall|i: int, j: int| a.in_bounds(i, j) implies (#[trigger] a.at(
            i,
            j,
        )).adjacent_mines == (if a.at(i, j).is_mine {
            0
        } else {
            a.neighbor_mines(i, j)
        }) by {
            assert(b.at(i, j).adjacent_mines == (if b.at(i, j).is_mine {
                0
            } else {
                b.neighbor_mines(i, j)
            }));
            assert forall|i2: int, j2: int| b.in_bounds(i2, j2) implies (#[trigger] b.at(
                i2,
                j2,
            )).is_mine == a.at(i2, j2).is_mine by {}
            b.lemma_same_mines_same_counts(a, i, j);
        }
        assert forall|i: int, j: int| a.in_bounds(i, j) implies !((#[trigger] a.at(
            i,
            j,
        )).is_revealed && a.at(i, j).is_flagged) by {
            assert(!(b.at(i, j).is_revealed && b.at(i, j).is_flagged));
        }
        assert forall|i: int, j: int, i2: int, j2: int|
            a.spreads(i, j) && a.at(i, j).is_revealed && #[trigger] adjacent(i, j, i2, j2)
                && a.in_bounds(i2, j2) implies a.at(i2, j2).is_revealed by {
            assert(a.at(i, j).is_mine == b.at(i, j).is_mine);
            assert(b.spreads(i, j) && b.at(i, j).is_revealed);
            assert(b.at(i2, j2).is_revealed);
            assert(a.at(i2, j2).is_revealed == b.at(i2, j2).is_revealed);
        }
        assert forall|i: int, j: int| a.in_bounds(i, j) && (#[trigger] a.at(i, j)).is_mine
            implies !a.at(i, j).is_revealed by {
            assert(b.in_bounds(i, j) && b.at(i, j).is_mine);
            assert(!b.at(i, j).is_revealed);
        }
    }
}

/// Along a way through cells that spread, on a board where everything
/// around a revealed cell that spreads is revealed: if the first cell is
/// revealed, so is every other.
pub proof fn lemma_region_revealed(b: BoardView, path: Seq<(int, int)>, i: int)
    requires
        b.flood_closed(),
        b.zero_path(path),
        b.at(path[0].0, path[0].1).is_revealed,
        0 <= i < path.len(),
    ensures
        b.at(path[i].0, path[i].1).is_revealed,
    decreases i,
{
    if i > 0 {
        lemma_region_revealed(b, path, i - 1);
        let p = path[i - 1];
        let q = path[i];
        assert(linked(path, i - 1));
        assert(b.spreads(p.0, p.1) && adjacent(p.0, p.1, q.0, q.1));
        assert(b.spreads(q.0, q.1));
    }
}

/// Revealing a cell of a connected region of cells that spread reveals the
/// whole region and every cell that borders it.
///
/// `(r2, c2)` is any cell of the region of `(r, c)`, and `(r3, c3)` any cell
/// of the grid next to it.
pub proof fn lemma_flood_fill(b: BoardView, r: int, c: int, r2: int, c2: int, r3: int, c3: int)
    requires
        b.well_formed(),
        b.playing(),
        b.same_region(r, c, r2, c2),
        adjacent(r2, c2, r3, c3),
        b.in_bounds(r3, c3),
    ensures
        b.after_reveal(r, c).at(r2, c2).is_revealed,
        b.after_reveal(r, c).at(r3, c3).is_revealed,
{
    let a = b.after_reveal(r, c);
    let path = choose|path: Seq<(int, int)>|
        #[trigger] b.zero_path(path) && path.first() == (r, c) && path.last() == (r2, c2);
    assert(b.spreads(path[0].0, path[0].1));
    assert(b.spreads(path[path.len() - 1].0, path[path.len() - 1].1));
    lemma_reveal_keeps_well_formed(b, r, c);
    if !b.at(r, c).is_revealed {
        lemma_reveal_cells(b, r, c);
    }
    assert(a.zero_path(path)) by {
        assert forall|i: int| 0 <= i < path.len() implies a.spreads(
            (#[trigger] path[i]).0,
            path[i].1,
        ) by {
            assert(b.spreads(path[i].0, path[i].1));
            assert(a.at(path[i].0, path[i].1).is_mine == b.at(path[i].0, path[i].1).is_mine);
        }
    }
    lemma_region_revealed(a, path, path.len() - 1);
    assert(a.spreads(r2, c2));
}

/// Revealing a cell never shows a mine elsewhere: a mine other than the
/// cell that was asked for stays as it was.
pub proof fn lemma_flood_fill_spares_mines(b: BoardView, r: int, c: int, r2: int, c2: int)
    requires
        b.well_formed(),
        b.mine_at(r2, c2),
        r2 != r || c2 != c,
    ensures
        b.after_reveal(r, c).at(r2, c2) == b.at(r2, c2),
{
    if b.playing() && b.in_bounds(r, c) && !b.at(r, c).is_revealed {
        lemma_reveal_cells(b, r, c);
        if b.cascades_to(r, c, r2, c2) {
            lemma_cascade_spares_mines(b, r, c, r2, c2);
        }
    }
}

/// Revealing a mine loses the game and shows that cell alone.
pub proof fn lemma_reveal_mine(b: BoardView, r: int, c: int, i: int, j: int)
    requires
        b.well_formed(),
        b.playing(),
        b.mine_at(r, c),
        !b.at(r, c).is_revealed,
        b.in_bounds(i, j),
    ensures
        b.after_reveal(r, c).state() == GameState::Lost,
        b.after_reveal(r, c).at(i, j) == (if i == r && j == c {
            b.at(r, c).shown()
        } else {
            b.at(i, j)
        }),
{
    lemma_reveal_cells(b, r, c);
    if b.cascades_to(r, c, i, j) {
        b.lemma_cascade_reach(r, c, i, j);
    }
}

/// A reveal only ever shows cells: what was revealed stays revealed, and no
/// mine is laid or lifted.
pub proof fn lemma_reveal_monotone(b: BoardView, r: int, c: int, i: int, j: int)
    requires
        b.rectangular(),
        b.in_bounds(i, j),
    ensures
        b.at(i, j).is_revealed ==> b.after_reveal(r, c).at(i, j) == b.at(i, j),
        b.after_reveal(r, c).at(i, j).is_mine == b.at(i, j).is_mine,
        b.after_reveal(r, c).at(i, j).adjacent_mines == b.at(i, j).adjacent_mines,
{
    if b.playing() && b.in_bounds(r, c) && !b.at(r, c).is_revealed {
        lemma_reveal_cells(b, r, c);
        if b.cascades_to(r, c, i, j) {
            b.lemma_cascade_reach(r, c, i, j);
        }
    }
}

/// On a board whose counts are right, computing them again changes nothing.
pub proof fn lemma_counts_settled(b: BoardView)
    requires
        b.rectangular(),
        b.counts_correct(),
    ensures
        b.with_counts() == b,
{
    b.lemma_with_counts();
    let again = b.with_counts();
    assert forall|i: int| 0 <= i < b.cells.len() implies #[trigger] again.cells[i]
        =~= b.cells[i] by {
        assert(b.cells[i].len() == b.cols());
        assert forall|j: int| 0 <= j < b.cells[i].len() implies again.cells[i][j]
            == b.cells[i][j] by {
            assert(b.in_bounds(i, j));
            assert(again.at(i, j) == b.at(i, j)) by {
                b.lemma_same_mines_same_counts(b, i, j);
                assert(b.at(i, j).adjacent_mines == (if b.at(i, j).is_mine {
                    0
                } else {
                    b.neighbor_mines(i, j)
                }));
            }
        }
    }
    assert(again.cells =~~= b.cells);
}

/// Whether `p` is among the first `k` of the eight positions around
/// `(r, c)`, taken row by row.
pub open spec fn among_first(r: int, c: int, k: int, p: (int, int)) -> bool {
    ||| k > 0 && p == (r - 1, c - 1)
    ||| k > 1 && p == (r - 1, c)
    ||| k > 2 && p == (r - 1, c + 1)
    ||| k > 3 && p == (r, c - 1)
    ||| k > 4 && p == (r, c + 1)
    ||| k > 5 && p == (r + 1, c - 1)
    ||| k > 6 && p == (r + 1, c)
    ||| k > 7 && p == (r + 1, c + 1)
}

/// The mines among the first `k` positions around `(r, c)`.
pub open spec fn mines_among_first(b: BoardView, r: int, c: int, k: int) -> Set<(int, int)> {
    Set::new(|p: (int, int)| b.mine_at(p.0, p.1) && among_first(r, c, k, p))
}

/// One more position adds its weight to the number of mines.
proof fn lemma_one_more_position(
    b: BoardView,
    fewer: Set<(int, int)>,
    more: Set<(int, int)>,
    p: (int, int),
)
    requires
        fewer.finite(),
        !fewer.contains(p),
        more == (if b.mine_at(p.0, p.1) {
            fewer.insert(p)
        } else {
            fewer
        }),
    ensures
        more.finite(),
        more.len() == fewer.len() + b.mine_weight(p.0, p.1),
{
}

/// The count of a cell is the size of a set: the number of mines around a
/// position is the number of positions of the grid that hold a mine and lie
/// next to it.
pub proof fn lemma_neighbor_mines_is_count(b: BoardView, r: int, c: int)
    ensures
        b.mines_around(r, c).finite(),
        b.neighbor_mines(r, c) == b.mines_around(r, c).len(),
{
    let s0 = mines_among_first(b, r, c, 0);
    let s1 = mines_among_first(b, r, c, 1);
    let s2 = mines_among_first(b, r, c, 2);
    let s3 = mines_among_first(b, r, c, 3);
    let s4 = mines_among_first(b, r, c, 4);
    let s5 = mines_among_first(b, r, c, 5);
    let s6 = mines_among_first(b, r, c, 6);
    let s7 = mines_among_first(b, r, c, 7);
    let s8 = mines_among_first(b, r, c, 8);
    assert(s0 =~= Set::empty());
    assert(s1 =~= (if b.mine_at(r - 1, c - 1) {
        s0.insert((r - 1, c - 1))
    } else {
        s0
    }));
    lemma_one_more_position(b, s0, s1, (r - 1, c - 1));
    assert(s2 =~= (if b.mine_at(r - 1, c) {
        s1.insert((r - 1, c))
    } else {
        s1
    }));
    lemma_one_more_position(b, s1, s2, (r - 1, c));
    assert(s3 =~= (if b.mine_at(r - 1, c + 1) {
        s2.insert((r - 1, c + 1))
    } else {
        s2
    }));
    lemma_one_more_position(b, s2, s3, (r - 1, c + 1));
    assert(s4 =~= (if b.mine_at(r, c - 1) {
        s3.insert((r, c - 1))
    } else {
        s3
    }));
    lemma_one_more_position(b, s3, s4, (r, c - 1));
    assert(s5 =~= (if b.mine_at(r, c + 1) {
        s4.insert((r, c + 1))
    } else {
        s4
    }));
    lemma_one_more_position(b, s4, s5, (r, c + 1));
    assert(s6 =~= (if b.mine_at(r + 1, c - 1) {
        s5.insert((r + 1, c - 1))
    } else {
        s5
    }));
    lemma_one_more_position(b, s5, s6, (r + 1, c - 1));
    assert(s7 =~= (if b.mine_at(r + 1, c) {
        s6.insert((r + 1, c))
    } else {
        s6
    }));
    lemma_one_more_position(b, s6, s7, (r + 1, c));
    assert(s8 =~= (if b.mine_at(r + 1, c + 1) {
        s7.insert((r + 1, c + 1))
    } else {
        s7
    }));
    lemma_one_more_position(b, s7, s8, (r + 1, c + 1));
    assert(s8 =~= b.mines_around(r, c));
}

/// A reveal of a cell without a mine keeps the game from being lost, keeps
/// the mines and what was revealed, and leaves the cell revealed.
pub proof fn lemma_safe_reveal(b: BoardView, r: int, c: int)
    requires
        b.well_formed(),
        !b.game_over,
        !b.mine_at(r, c),
    ensures
        b.after_reveal(r, c).well_formed(),
        !b.after_reveal(r, c).game_over,
        b.after_reveal(r, c).rows() == b.rows(),
        b.after_reveal(r, c).cols() == b.cols(),
        b.in_bounds(r, c) ==> b.after_reveal(r, c).at(r, c).is_revealed,
        forall|i: int, j: int|
            b.in_bounds(i, j) ==> (#[trigger] b.after_reveal(r, c).at(i, j)).is_mine == b.at(
                i,
                j,
            ).is_mine && (b.at(i, j).is_revealed ==> b.after_reveal(r, c).at(i, j).is_revealed),
{
    let end = b.after_reveal(r, c);
    lemma_reveal_keeps_well_formed(b, r, c);
    if b.playing() && b.in_bounds(r, c) && !b.at(r, c).is_revealed {
        lemma_reveal_cells(b, r, c);
    } else if b.in_bounds(r, c) && !b.at(r, c).is_revealed {
        assert(b.all_safe_revealed());
        assert(!b.at(r, c).is_mine);
    }
    assert forall|i: int, j: int| b.in_bounds(i, j) implies (#[trigger] end.at(i, j)).is_mine
        == b.at(i, j).is_mine && (b.at(i, j).is_revealed ==> end.at(i, j).is_revealed) by {
        lemma_reveal_monotone(b, r, c, i, j);
    }
}

/// What holds between a board and a later one in a game that is not lost:
/// the grid has kept its shape and its mines, and what was revealed.
pub open spec fn played_on(b: BoardView, later: BoardView) -> bool {
    &&& later.well_formed()
    &&& !later.game_over
    &&& later.rows() == b.rows()
    &&& later.cols() == b.cols()
    &&& forall|i: int, j: int|
        b.in_bounds(i, j) ==> (#[trigger] later.at(i, j)).is_mine == b.at(i, j).is_mine && (b.at(
            i,
            j,
        ).is_revealed ==> later.at(i, j).is_revealed)
}

/// Reveals of cells without a mine keep the game from being lost, keep the
/// mines and what was revealed, and leave every cell that was asked for
/// revealed.
pub proof fn lemma_safe_reveals(b: BoardView, cells: Seq<(int, int)>)
    requires
        b.well_formed(),
        !b.game_over,
        forall|k: int| 0 <= k < cells.len() ==> !b.mine_at((#[trigger] cells[k]).0, cells[k].1),
    ensures
        played_on(b, b.after_reveals(cells)),
        forall|k: int|
            0 <= k < cells.len() && b.in_bounds((#[trigger] cells[k]).0, cells[k].1)
                ==> b.after_reveals(cells).at(cells[k].0, cells[k].1).is_revealed,
    decreases cells.len(),
{
    if cells.len() > 0 {
        let earlier = cells.drop_last();
        let (r, c) = cells.last();
        assert forall|k: int| 0 <= k < earlier.len() implies !b.mine_at(
            (#[trigger] earlier[k]).0,
            earlier[k].1,
        ) by {
            assert(earlier[k] == cells[k]);
        }
        lemma_safe_reveals(b, earlier);
        let mid = b.after_reveals(earlier);
        let end = mid.after_reveal(r, c);
        assert(end == b.after_reveals(cells));
        assert(cells[cells.len() - 1] == (r, c));
        assert(!mid.mine_at(r, c)) by {
            assert(!b.mine_at(r, c));
            if b.in_bounds(r, c) {
                assert(mid.at(r, c).is_mine == b.at(r, c).is_mine);
            }
        }
        lemma_safe_reveal(mid, r, c);
        lemma_played_on_further(b, mid, end);
        assert forall|k: int|
            0 <= k < cells.len() && b.in_bounds((#[trigger] cells[k]).0, cells[k].1) implies end.at(
            cells[k].0,
            cells[k].1,
        ).is_revealed by {
            if k < earlier.len() {
                assert(earlier[k] == cells[k]);
                assert(mid.in_bounds(cells[k].0, cells[k].1));
                assert(mid.at(cells[k].0, cells[k].1).is_revealed);
                assert(end.at(cells[k].0, cells[k].1).is_mine == mid.at(
                    cells[k].0,
                    cells[k].1,
                ).is_mine);
            }
        }
    }
}

/// A game played on stays played on.
proof fn lemma_played_on_further(b: BoardView, mid: BoardView, end: BoardView)
    requires
        played_on(b, mid),
        end.well_formed(),
        !end.game_over,
        end.rows() == mid.rows(),
        end.cols() == mid.cols(),
        forall|i: int, j: int|
            mid.in_bounds(i, j) ==> (#[trigger] end.at(i, j)).is_mine == mid.at(i, j).is_mine && (
            mid.at(i, j).is_revealed ==> end.at(i, j).is_revealed),
    ensures
        played_on(b, end),
{
    assert forall|i: int, j: int| b.in_bounds(i, j) implies (#[trigger] end.at(i, j)).is_mine
        == b.at(i, j).is_mine && (b.at(i, j).is_revealed ==> end.at(i, j).is_revealed) by {
        assert(mid.in_bounds(i, j));
        assert(mid.at(i, j).is_mine == b.at(i, j).is_mine);
    }
}

/// Revealing every cell without a mine, in any order and without asking for
/// a mine, wins the game.
pub proof fn lemma_revealing_all_safe_cells_wins(b: BoardView, cells: Seq<(int, int)>)
    requires
        b.well_formed(),
        !b.game_over,
        forall|k: int| 0 <= k < cells.len() ==> !b.mine_at((#[trigger] cells[k]).0, cells[k].1),
        forall|r: int, c: int|
            b.in_bounds(r, c) && !(#[trigger] b.at(r, c)).is_mine ==> cells.contains((r, c)),
    ensures
        b.after_reveals(cells).state() == GameState::Won,
{
    lemma_safe_reveals(b, cells);
    let end = b.after_reveals(cells);
    assert forall|r: int, c: int| end.in_bounds(r, c) && !(#[trigger] end.at(r, c)).is_mine
        implies end.at(r, c).is_revealed by {
        assert(b.in_bounds(r, c));
        assert(!b.at(r, c).is_mine);
        let k = choose|k: int| 0 <= k < cells.len() && cells[k] == (r, c);
        assert(b.in_bounds(cells[k].0, cells[k].1));
    }
}

/// A command whose row or column could not be read, and so stands at the
/// number of rows or of columns, changes nothing.
pub proof fn lemma_unread_coordinate_changes_nothing(b: BoardView, command: Command)
    requires
        match command {
            Command::Reveal { row, col } => row == b.rows() || col == b.cols(),
            Command::Flag { row, col } => row == b.rows() || col == b.cols(),
            _ => true,
        },
    ensures
        b.after_command(command) == b,
{
}

/// Once the game is lost or won, no command changes the board: the game
/// stays lost or won.
pub proof fn lemma_ended_game_stays_ended(b: BoardView, command: Command)
    requires
        b.state() != GameState::Playing,
    ensures
        b.after_command(command) == b,
{
}

/// Every command keeps a board well formed.
pub proof fn lemma_command_keeps_well_formed(b: BoardView, command: Command)
    requires
        b.well_formed(),
    ensures
        b.after_command(command).well_formed(),
{
    match command {
        Command::Reveal { row, col } => lemma_reveal_keeps_well_formed(b, row as int, col as int),
        Command::Flag { row, col } => lemma_toggle_keeps_well_formed(b, row as int, col as int),
        _ => {},
    }
}

} // verus!
