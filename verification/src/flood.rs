use crate::model::{adjacent, linked, BoardView};
use vstd::prelude::*;

verus! {

/// A cell that spreads and that the reveal in progress has shown.
pub open spec fn fresh(start: BoardView, cur: BoardView, r: int, c: int) -> bool {
    start.spreads(r, c) && !start.at(r, c).is_revealed && cur.at(r, c).is_revealed
}

/// Whether `(r, c)` waits on the frontier.
pub open spec fn on_frontier(frontier: Seq<(usize, usize)>, r: int, c: int) -> bool {
    exists|k: int| 0 <= k < frontier.len() && (#[trigger] frontier[k]).0 == r && frontier[k].1 == c
}

/// What holds while a reveal of `(r0, c0)` on the board `start` spreads:
/// `cur` is the board so far, `frontier` holds the cells whose neighbours
/// are still to be shown, and `busy` is the cell whose neighbours are being
/// shown, if any.
///
/// So far only cells that the reveal reaches have changed, and they are
/// shown. Every cell on the frontier is fresh, and a fresh cell with a
/// hidden neighbour is on the frontier or busy.
pub open spec fn spreading(
    start: BoardView,
    cur: BoardView,
    r0: int,
    c0: int,
    frontier: Seq<(usize, usize)>,
    busy: Option<(int, int)>,
) -> bool {
    &&& start.rectangular()
    &&& cur.rectangular()
    &&& cur.rows() == start.rows()
    &&& cur.cols() == start.cols()
    &&& cur.mine_count == start.mine_count
    &&& forall|r: int, c: int|
        start.in_bounds(r, c) ==> (#[trigger] cur.at(r, c)) == start.at(r, c) || (cur.at(r, c)
            == start.at(r, c).shown() && start.cascades_to(r0, c0, r, c))
    &&& forall|k: int|
        0 <= k < frontier.len() ==> fresh(
            start,
            cur,
            (#[trigger] frontier[k]).0 as int,
            frontier[k].1 as int,
        )
    &&& forall|r: int, c: int, r2: int, c2: int|
        fresh(start, cur, r, c) && #[trigger] adjacent(r, c, r2, c2) && start.in_bounds(r2, c2)
            && !cur.at(r2, c2).is_revealed ==> on_frontier(frontier, r, c) || busy == Some((r, c))
}

/// One step of the spreading: a hidden neighbour `(r, c)` of the busy cell
/// `(row, col)` is shown, and joins the frontier if its count is zero.
pub proof fn lemma_spread_step(
    start: BoardView,
    before: BoardView,
    now: BoardView,
    r0: int,
    c0: int,
    waiting: Seq<(usize, usize)>,
    frontier: Seq<(usize, usize)>,
    row: int,
    col: int,
    r: usize,
    c: usize,
)
    requires
        start.counts_correct(),
        spreading(start, before, r0, c0, waiting, Some((row, col))),
        fresh(start, before, row, col),
        adjacent(row, col, r as int, c as int),
        start.in_bounds(r as int, c as int),
        !before.at(r as int, c as int).is_revealed,
        now == before.with_cell(r as int, c as int, before.at(r as int, c as int).shown()),
        frontier == (if before.at(r as int, c as int).adjacent_mines == 0 {
            waiting.push((r, c))
        } else {
            waiting
        }),
    ensures
        spreading(start, now, r0, c0, frontier, Some((row, col))),
        now.game_over == before.game_over,
        now.at(r as int, c as int).is_revealed,
        forall|i: int, j: int|
            start.in_bounds(i, j) && (#[trigger] before.at(i, j)).is_revealed ==> now.at(
                i,
                j,
            ).is_revealed,
        before.hidden().finite(),
        now.hidden().len() == before.hidden().len() - 1,
{
    let shown = before.at(r as int, c as int).shown();
    before.lemma_with_cell(r as int, c as int, shown);
    before.lemma_show_cell(r as int, c as int);
    assert(before.at(r as int, c as int) == start.at(r as int, c as int));
    assert(start.cascades_to(r0, c0, row, col)) by {
        assert(before.at(row, col) != start.at(row, col));
    }
    start.lemma_cascade_step(r0, c0, row, col, r as int, c as int);
    assert(!start.at(r as int, c as int).is_mine) by {
        if start.at(r as int, c as int).is_mine {
            start.lemma_neighbor_counted(row, col, r as int, c as int);
        }
    }
    assert forall|i: int, j: int| start.in_bounds(i, j) implies (#[trigger] now.at(i, j))
        == start.at(i, j) || (now.at(i, j) == start.at(i, j).shown() && start.cascades_to(
        r0,
        c0,
        i,
        j,
    )) by {
        assert(before.in_bounds(i, j));
        assert(before.at(i, j) == start.at(i, j) || (before.at(i, j) == start.at(i, j).shown()
            && start.cascades_to(r0, c0, i, j)));
    }
    assert forall|i: int, j: int|
        start.in_bounds(i, j) && (#[trigger] before.at(i, j)).is_revealed implies now.at(
        i,
        j,
    ).is_revealed by {
        assert(before.in_bounds(i, j));
    }
    assert forall|k: int| 0 <= k < frontier.len() implies fresh(
        start,
        now,
        (#[trigger] frontier[k]).0 as int,
        frontier[k].1 as int,
    ) by {
        if k < waiting.len() {
            assert(frontier[k] == waiting[k]);
            assert(fresh(start, before, waiting[k].0 as int, waiting[k].1 as int));
            assert(before.in_bounds(waiting[k].0 as int, waiting[k].1 as int));
        }
    }
    assert forall|i: int, j: int, i2: int, j2: int|
        fresh(start, now, i, j) && #[trigger] adjacent(i, j, i2, j2) && start.in_bounds(i2, j2)
            && !now.at(i2, j2).is_revealed implies on_frontier(frontier, i, j) || Some((row, col))
        == Some((i, j)) by {
        if i == r && j == c {
            assert(frontier[waiting.len() as int] == (r, c));
        } else {
            assert(before.in_bounds(i, j));
            assert(before.in_bounds(i2, j2));
            assert(fresh(start, before, i, j));
            assert(!before.at(i2, j2).is_revealed);
            if !(i == row && j == col) {
                assert(on_frontier(waiting, i, j));
                let k = choose|k: int|
                    0 <= k < waiting.len() && (#[trigger] waiting[k]).0 == i && waiting[k].1 == j;
                assert(frontier[k] == waiting[k]);
            }
        }
    }
}

/// The busy cell comes off the frontier.
pub proof fn lemma_spread_pop(
    start: BoardView,
    cur: BoardView,
    r0: int,
    c0: int,
    waiting: Seq<(usize, usize)>,
)
    requires
        spreading(start, cur, r0, c0, waiting, None),
        waiting.len() > 0,
    ensures
        spreading(
            start,
            cur,
            r0,
            c0,
            waiting.drop_last(),
            Some((waiting.last().0 as int, waiting.last().1 as int)),
        ),
        fresh(start, cur, waiting.last().0 as int, waiting.last().1 as int),
{
    let rest = waiting.drop_last();
    let top = waiting[waiting.len() - 1];
    assert(fresh(start, cur, top.0 as int, top.1 as int));
    assert forall|k: int| 0 <= k < rest.len() implies fresh(
        start,
        cur,
        (#[trigger] rest[k]).0 as int,
        rest[k].1 as int,
    ) by {
        assert(rest[k] == waiting[k]);
    }
    assert forall|i: int, j: int, i2: int, j2: int|
        fresh(start, cur, i, j) && #[trigger] adjacent(i, j, i2, j2) && start.in_bounds(i2, j2)
            && !cur.at(i2, j2).is_revealed implies on_frontier(rest, i, j) || Some(
        (top.0 as int, top.1 as int),
    ) == Some((i, j)) by {
        assert(on_frontier(waiting, i, j));
        let k = choose|k: int|
            0 <= k < waiting.len() && (#[trigger] waiting[k]).0 == i && waiting[k].1 == j;
        if k < rest.len() {
            assert(rest[k] == waiting[k]);
        }
    }
}

/// Once everything around the busy cell is shown, no cell is busy.
pub proof fn lemma_spread_settled(
    start: BoardView,
    cur: BoardView,
    r0: int,
    c0: int,
    frontier: Seq<(usize, usize)>,
    row: int,
    col: int,
)
    requires
        spreading(start, cur, r0, c0, frontier, Some((row, col))),
        forall|i: int, j: int|
            #[trigger] adjacent(row, col, i, j) && start.in_bounds(i, j) ==> cur.at(
                i,
                j,
            ).is_revealed,
    ensures
        spreading(start, cur, r0, c0, frontier, None),
{
    assert forall|i: int, j: int, i2: int, j2: int|
        fresh(start, cur, i, j) && #[trigger] adjacent(i, j, i2, j2) && start.in_bounds(i2, j2)
            && !cur.at(i2, j2).is_revealed implies on_frontier(frontier, i, j) by {
        if i == row && j == col {
            assert(cur.at(i2, j2).is_revealed);
        }
    }
}

/// Once the frontier is empty, every cell along a way on which the reveal
/// spreads has been shown.
pub proof fn lemma_path_shown(
    start: BoardView,
    cur: BoardView,
    r0: int,
    c0: int,
    path: Seq<(int, int)>,
    i: int,
)
    requires
        spreading(start, cur, r0, c0, Seq::empty(), None),
        cur.at(r0, c0).is_revealed,
        start.cascade_path(path),
        path.first() == (r0, c0),
        0 <= i < path.len(),
    ensures
        cur.at(path[i].0, path[i].1).is_revealed,
    decreases i,
{
    if i > 0 {
        lemma_path_shown(start, cur, r0, c0, path, i - 1);
        let p = path[i - 1];
        let q = path[i];
        assert(linked(path, i - 1));
        assert(start.spreads(p.0, p.1) && adjacent(p.0, p.1, q.0, q.1));
        assert(fresh(start, cur, p.0, p.1));
        assert(start.in_bounds(q.0, q.1));
        if !cur.at(q.0, q.1).is_revealed {
            assert(on_frontier(Seq::<(usize, usize)>::empty(), p.0, p.1));
        }
    }
}

/// Once the frontier is empty, the board is the one that the reveal is
/// specified to leave, up to the record of a loss.
pub proof fn lemma_spread_done(start: BoardView, cur: BoardView, r0: int, c0: int)
    requires
        spreading(start, cur, r0, c0, Seq::empty(), None),
        start.playing(),
        start.in_bounds(r0, c0),
        !start.at(r0, c0).is_revealed,
        cur.at(r0, c0).is_revealed,
    ensures
        cur.cells == start.after_reveal(r0, c0).cells,
{
    let goal = start.after_reveal(r0, c0);
    assert forall|i: int| 0 <= i < cur.cells.len() implies #[trigger] cur.cells[i]
        =~= goal.cells[i] by {
        assert(cur.cells[i].len() == cur.cols());
        assert(start.cells[i].len() == start.cols());
        assert forall|j: int| 0 <= j < cur.cells[i].len() implies cur.cells[i][j]
            == goal.cells[i][j] by {
            assert(start.in_bounds(i, j));
            let cell = cur.at(i, j);
            if start.cascades_to(r0, c0, i, j) {
                let path = choose|path: Seq<(int, int)>|
                    #[trigger] start.cascade_path(path) && path.first() == (r0, c0) && path.last()
                        == (i, j);
                lemma_path_shown(start, cur, r0, c0, path, path.len() - 1);
                start.lemma_cascade_reach(r0, c0, i, j);
            }
        }
    }
    assert(cur.cells =~~= goal.cells);
}

} // verus!
